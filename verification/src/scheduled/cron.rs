//! Cron expressions of six fields (`sec min hour dom mon dow`): when they fall
//! due, and how their cadence reads. They are evaluated in local time, because
//! "Daily at 9:00 AM" means the wall clock of whoever reads it.
use vstd::prelude::*;
use vstd::string::*;
use crate::number;
use crate::text;
use crate::text::{same_text, CharClass};

verus! {

/// The first instant that a schedule is asked about: the start of year 1, in
/// milliseconds since 1970.
pub const FIRST_INSTANT_MS: i64 = -62_135_596_800_000;

/// The last instant that a schedule is asked about: the end of year 9999.
pub const LAST_INSTANT_MS: i64 = 253_402_300_799_999;

/// Whether an instant lies in the years 1 to 9999.
pub open spec fn in_calendar(ms: int) -> bool {
    FIRST_INSTANT_MS <= ms <= LAST_INSTANT_MS
}

/// What is wrong with a cron expression, in words; `None` where it can be read.
pub uninterp spec fn cron_fault(expr: Seq<char>) -> Option<Seq<char>>;

/// Reads `expr` by `cron::Schedule::from_str` and keeps what is wrong with it:
/// `None` where it is accepted, else the text of the error. Both depend on the
/// expression alone.
#[verifier::external_body]
fn expression_fault(expr: &str) -> (r: Option<String>)
    ensures
        text::opt_view(r) == cron_fault(expr@),
{
    match expr.parse::<cron::Schedule>() {
        Ok(_) => None,
        Err(e) => Some(format!("{e}")),
    }
}

/// The `n`th occurrence, from 0, that `cron::Schedule::after` gives for the
/// instant `now_ms` in the zone of `chrono::Local`. Expressions name years from
/// 1970 to 2100 only. Which instant it is depends on the time zone of the
/// machine, and where a clock goes back the earlier of two readings comes first:
/// nothing more is said of it.
#[verifier::external_body]
fn occurrence_after(source: &str, now_ms: i64, n: usize) -> (r: Option<i64>)
    requires
        in_calendar(now_ms as int),
    ensures
        r matches Some(t) ==> in_calendar(t as int),
{
    let schedule = source.parse::<cron::Schedule>().ok()?;
    let now = chrono::DateTime::from_timestamp_millis(now_ms)?.with_timezone(&chrono::Local);
    schedule.after(&now).nth(n).map(|t| t.timestamp_millis())
}

/// The `n`th occurrence, from 0, that the iterator of `cron::Schedule::after`
/// gives from its other end, for the instant `from_ms` in the zone of
/// `chrono::Local`. Like `occurrence_after`, it depends on the time zone of the
/// machine, and where a clock goes back the later of two readings comes first.
#[verifier::external_body]
fn occurrence_before(source: &str, from_ms: i64, n: usize) -> (r: Option<i64>)
    requires
        in_calendar(from_ms as int),
    ensures
        r matches Some(t) ==> in_calendar(t as int),
{
    let schedule = source.parse::<cron::Schedule>().ok()?;
    let from = chrono::DateTime::from_timestamp_millis(from_ms)?.with_timezone(&chrono::Local);
    schedule.after(&from).nth_back(n).map(|t| t.timestamp_millis())
}

/// The hour and the minute that the local clock shows at an instant:
/// `chrono::Timelike::hour` and `minute` in the zone of `chrono::Local`. They
/// depend on the time zone of the machine.
#[verifier::external_body]
fn local_clock(ms: i64) -> (r: Option<(u32, u32)>)
    requires
        in_calendar(ms as int),
    ensures
        r matches Some(clock) ==> clock.0 < 24 && clock.1 < 60,
{
    let at = chrono::DateTime::from_timestamp_millis(ms)?.with_timezone(&chrono::Local);
    Some((chrono::Timelike::hour(&at), chrono::Timelike::minute(&at)))
}

/// The day of the week that a text names, counted from Monday: the whole name
/// or its first three letters, in any case.
pub open spec fn weekday_named(s: Seq<char>) -> Option<int> {
    let name = text::ascii_lowered(s);
    if name == "mon"@ || name == "monday"@ {
        Some(0int)
    } else if name == "tue"@ || name == "tuesday"@ {
        Some(1int)
    } else if name == "wed"@ || name == "wednesday"@ {
        Some(2int)
    } else if name == "thu"@ || name == "thursday"@ {
        Some(3int)
    } else if name == "fri"@ || name == "friday"@ {
        Some(4int)
    } else if name == "sat"@ || name == "saturday"@ {
        Some(5int)
    } else if name == "sun"@ || name == "sunday"@ {
        Some(6int)
    } else {
        None
    }
}

/// Reads the name of a day by `chrono::Weekday::from_str` and counts it by
/// `num_days_from_monday`: the name in full or cut to three letters, without
/// regard to ASCII case, and nothing else.
#[verifier::external_body]
fn weekday_number(s: &str) -> (r: Option<u32>)
    ensures
        match r {
            Some(d) => weekday_named(s@) == Some(d as int),
            None => weekday_named(s@) is None,
        },
{
    match s.parse::<chrono::Weekday>() {
        Ok(d) => Some(d.num_days_from_monday()),
        Err(_) => None,
    }
}

/// A cron expression that can be read.
#[derive(Debug)]
pub struct Schedule {
    source: String,
}

impl View for Schedule {
    type V = Seq<char>;

    closed spec fn view(&self) -> Seq<char> {
        self.source@
    }
}

impl Schedule {
    #[verifier::type_invariant]
    closed spec fn readable(self) -> bool {
        cron_fault(self.source@) is None
    }

    /// The expression.
    pub fn source(&self) -> (r: &str)
        ensures
            r@ == self@,
            cron_fault(r@) is None,
    {
        proof {
            use_type_invariant(self);
        }
        self.source.as_str()
    }
}

/// Reads and checks a cron expression.
pub fn parse(expr: &str) -> (r: Result<Schedule, String>)
    ensures
        match r {
            Ok(s) => cron_fault(expr@) is None && s@ == expr@,
            Err(e) => match cron_fault(expr@) {
                Some(why) => e@ == "invalid cron expression: "@ + why,
                None => false,
            },
        },
{
    match expression_fault(expr) {
        None => Ok(Schedule { source: expr.to_owned() }),
        Some(why) => {
            let mut e: String = "invalid cron expression: ".to_owned();
            e.append(why.as_str());
            Err(e)
        },
    }
}

/// The first of two candidates that lies after an instant.
pub open spec fn after_instant(
    now_ms: i64,
    first: Option<i64>,
    second: Option<i64>,
) -> Option<i64> {
    match (first, second) {
        (Some(t), _) if t > now_ms => Some(t),
        (_, Some(t)) if t > now_ms => Some(t),
        _ => None,
    }
}

/// The first of two candidates that lies after an instant.
pub fn pick_after(now_ms: i64, first: Option<i64>, second: Option<i64>) -> (r: Option<i64>)
    ensures
        r == after_instant(now_ms, first, second),
{
    if let Some(t) = first {
        if t > now_ms {
            return first;
        }
    }
    if let Some(t) = second {
        if t > now_ms {
            return second;
        }
    }
    None
}

/// The first of two candidates that does not lie after an instant.
pub open spec fn up_to_instant(
    now_ms: i64,
    first: Option<i64>,
    second: Option<i64>,
) -> Option<i64> {
    match (first, second) {
        (Some(t), _) if t <= now_ms => Some(t),
        (_, Some(t)) if t <= now_ms => Some(t),
        _ => None,
    }
}

/// The first of two candidates that does not lie after an instant.
pub fn pick_up_to(now_ms: i64, first: Option<i64>, second: Option<i64>) -> (r: Option<i64>)
    ensures
        r == up_to_instant(now_ms, first, second),
{
    if let Some(t) = first {
        if t <= now_ms {
            return first;
        }
    }
    if let Some(t) = second {
        if t <= now_ms {
            return second;
        }
    }
    None
}

/// The whole second that follows an instant: a search for what lies before it
/// finds an occurrence on the instant itself.
pub fn second_after(now_ms: i64) -> (r: i64)
    requires
        in_calendar(now_ms as int),
        now_ms + 1000 <= LAST_INSTANT_MS,
    ensures
        now_ms < r <= now_ms + 1000,
        (r - FIRST_INSTANT_MS) % 1000 == 0,
        in_calendar(r as int),
{
    let into: i64 = (now_ms - FIRST_INSTANT_MS) % 1000;
    now_ms - into + 1000
}

/// Whether `t` is what the schedule of that expression gave, on the local clock,
/// as its `n`th occurrence from an instant on, counted from 0.
pub closed spec fn given_after(source: &str, now_ms: i64, n: usize, t: Option<i64>) -> bool {
    call_ensures(occurrence_after, (source, now_ms, n), t)
}

/// Whether `t` is what the schedule of that expression gave, on the local clock,
/// as its `n`th occurrence from an instant backwards, counted from 0.
pub closed spec fn given_before(source: &str, from_ms: i64, n: usize, t: Option<i64>) -> bool {
    call_ensures(occurrence_before, (source, from_ms, n), t)
}

/// Whether `r` is the first of the two occurrences which the schedule gave from
/// an instant on that lies after it.
pub open spec fn follows(source: Seq<char>, now_ms: i64, r: Option<i64>) -> bool {
    exists|s: &str, first: Option<i64>, second: Option<i64>| #[trigger]
        given_after(s, now_ms, 0, first) && #[trigger] given_after(s, now_ms, 1, second) && s@
            == source && r == after_instant(now_ms, first, second)
}

/// Whether `r` is the first of the two occurrences which the schedule gave
/// backwards from the whole second after an instant that does not lie after it.
pub open spec fn precedes(source: Seq<char>, now_ms: i64, r: Option<i64>) -> bool {
    exists|s: &str, from_ms: i64, first: Option<i64>, second: Option<i64>| #[trigger]
        given_before(s, from_ms, 0, first) && #[trigger] given_before(s, from_ms, 1, second) && s@
            == source && now_ms < from_ms <= now_ms + 1000 && (from_ms - FIRST_INSTANT_MS) % 1000
            == 0 && r == up_to_instant(now_ms, first, second)
}

/// The next occurrence strictly after `now_ms`, if there is one.
pub fn next_run(schedule: &Schedule, now_ms: i64) -> (r: Option<i64>)
    requires
        in_calendar(now_ms as int),
    ensures
        r matches Some(t) ==> now_ms < t && in_calendar(t as int),
        follows(schedule@, now_ms, r),
{
    let source: &str = schedule.source();
    let first: Option<i64> = occurrence_after(source, now_ms, 0);
    let second: Option<i64> = occurrence_after(source, now_ms, 1);
    assert(given_after(source, now_ms, 0, first) && given_after(source, now_ms, 1, second));
    pick_after(now_ms, first, second)
}

/// The most recent occurrence at or before `now_ms`, if there is one. It is
/// sought from the second that follows the one of `now_ms`, so that an
/// occurrence on `now_ms` itself counts.
pub fn prev_occurrence(schedule: &Schedule, now_ms: i64) -> (r: Option<i64>)
    requires
        in_calendar(now_ms as int),
        now_ms + 1000 <= LAST_INSTANT_MS,
    ensures
        r matches Some(t) ==> t <= now_ms && in_calendar(t as int),
        precedes(schedule@, now_ms, r),
{
    let source: &str = schedule.source();
    let from_ms: i64 = second_after(now_ms);
    let first: Option<i64> = occurrence_before(source, from_ms, 0);
    let second: Option<i64> = occurrence_before(source, from_ms, 1);
    assert(given_before(source, from_ms, 0, first) && given_before(source, from_ms, 1, second));
    pick_up_to(now_ms, first, second)
}

// ---------------------------------------------------------------------------
// The day-of-week field
// ---------------------------------------------------------------------------

/// The day, counted from Monday, that one token of a day-of-week field means: a
/// cron number, where 0 and 7 are Sunday, or a name.
pub open spec fn day_of_token(tok: Seq<char>) -> Option<int> {
    if tok == "0"@ || tok == "7"@ {
        Some(6int)
    } else if tok == "1"@ {
        Some(0int)
    } else if tok == "2"@ {
        Some(1int)
    } else if tok == "3"@ {
        Some(2int)
    } else if tok == "4"@ {
        Some(3int)
    } else if tok == "5"@ {
        Some(4int)
    } else if tok == "6"@ {
        Some(5int)
    } else {
        weekday_named(tok)
    }
}

/// The day, counted from Monday, that one token of a day-of-week field means.
fn parse_dow_token(tok: &str) -> (r: Option<u32>)
    ensures
        match r {
            Some(d) => day_of_token(tok@) == Some(d as int) && d < 7,
            None => day_of_token(tok@) is None,
        },
{
    if same_text(tok, "0") || same_text(tok, "7") {
        Some(6)
    } else if same_text(tok, "1") {
        Some(0)
    } else if same_text(tok, "2") {
        Some(1)
    } else if same_text(tok, "3") {
        Some(2)
    } else if same_text(tok, "4") {
        Some(3)
    } else if same_text(tok, "5") {
        Some(4)
    } else if same_text(tok, "6") {
        Some(5)
    } else {
        weekday_number(tok)
    }
}

/// Whether one part of a day-of-week field, a day or a range of days such as
/// `Mon-Fri`, takes in day `d`.
pub open spec fn part_has_day(part: Seq<char>, d: int) -> bool {
    let dash = text::find_char(part, '-', 0);
    if dash < part.len() {
        match (day_of_token(part.take(dash)), day_of_token(part.skip(dash + 1))) {
            (Some(lo), Some(hi)) => lo <= d <= hi,
            _ => false,
        }
    } else {
        day_of_token(part) == Some(d)
    }
}

/// Whether a day-of-week field takes in day `d`.
pub open spec fn field_has_day(dow: Seq<char>, d: int) -> bool {
    exists|i: int|
        0 <= i < text::split_char(dow, ',').len() && part_has_day(
            #[trigger] text::split_char(dow, ',')[i],
            d,
        )
}

/// The days before day `n` that a day-of-week field takes in, in week order.
pub open spec fn field_days(dow: Seq<char>, n: nat) -> Seq<int>
    decreases n,
{
    if n == 0 {
        Seq::empty()
    } else if field_has_day(dow, n - 1) {
        field_days(dow, (n - 1) as nat).push(n - 1)
    } else {
        field_days(dow, (n - 1) as nat)
    }
}

/// The days that one part of a day-of-week field takes in: the first and the
/// last of them.
fn part_days(part: &str) -> (r: Option<(u32, u32)>)
    ensures
        match r {
            Some((lo, hi)) => lo < 7 && hi < 7 && forall|d: int| #[trigger]
                part_has_day(part@, d) == (lo <= d <= hi),
            None => forall|d: int| !(#[trigger] part_has_day(part@, d)),
        },
{
    let v: Vec<char> = text::chars_of(part);
    let dash: usize = text::char_index(&v, '-', 0);
    if dash < v.len() {
        let lo: String = text::string_of(&v, 0, dash);
        let hi: String = text::string_of(&v, dash + 1, v.len());
        proof {
            assert(lo@ =~= part@.take(dash as int));
            assert(hi@ =~= part@.skip(dash + 1));
        }
        match (parse_dow_token(lo.as_str()), parse_dow_token(hi.as_str())) {
            (Some(a), Some(b)) => Some((a, b)),
            _ => None,
        }
    } else {
        match parse_dow_token(part) {
            Some(d) => Some((d, d)),
            None => None,
        }
    }
}

/// The days of a day-of-week field (`Mon,Wed,Fri`, `1,3,5` or a range
/// `Mon-Fri`), counted from Monday, in week order and each once.
fn parse_dow(dow: &str) -> (r: Vec<u32>)
    ensures
        r@.map_values(|d: u32| d as int) == field_days(dow@, 7),
{
    let parts: Vec<String> = text::split_char_text(dow, ',');
    let ghost fields = text::split_char(dow@, ',');
    let mut out: Vec<u32> = Vec::new();
    let mut d: u32 = 0;
    while d < 7
        invariant
            d <= 7,
            fields == text::split_char(dow@, ','),
            text::views(parts@) == fields,
            out@.map_values(|d: u32| d as int) == field_days(dow@, d as nat),
        decreases 7 - d,
    {
        let mut found = false;
        let mut i: usize = 0;
        while i < parts.len()
            invariant
                i <= parts@.len(),
                text::views(parts@) == fields,
                found == exists|j: int| 0 <= j < i && part_has_day(#[trigger] fields[j], d as int),
            decreases parts@.len() - i,
        {
            proof {
                assert(fields[i as int] == parts@[i as int]@);
            }
            let ghost was = found;
            if let Some((lo, hi)) = part_days(parts[i].as_str()) {
                if lo <= d && d <= hi {
                    found = true;
                }
            }
            proof {
                assert(found == (was || part_has_day(fields[i as int], d as int)));
                if found && !was {
                    assert(0 <= i < i + 1 && part_has_day(fields[i as int], d as int));
                }
            }
            i = i + 1;
        }
        proof {
            assert(found == field_has_day(dow@, d as int));
        }
        let ghost before = out@;
        if found {
            out.push(d);
            proof {
                assert(out@.map_values(|d: u32| d as int) =~= before.map_values(
                    |d: u32| d as int,
                ).push(d as int));
            }
        }
        d = d + 1;
    }
    out
}

/// The short name of a day.
pub open spec fn weekday_text(d: int) -> Seq<char> {
    if d == 0 {
        "Mon"@
    } else if d == 1 {
        "Tue"@
    } else if d == 2 {
        "Wed"@
    } else if d == 3 {
        "Thu"@
    } else if d == 4 {
        "Fri"@
    } else if d == 5 {
        "Sat"@
    } else {
        "Sun"@
    }
}

/// The short name of a day.
fn weekday_name(d: u32) -> (r: &'static str)
    ensures
        r@ == weekday_text(d as int),
{
    if d == 0 {
        "Mon"
    } else if d == 1 {
        "Tue"
    } else if d == 2 {
        "Wed"
    } else if d == 3 {
        "Thu"
    } else if d == 4 {
        "Fri"
    } else if d == 5 {
        "Sat"
    } else {
        "Sun"
    }
}

/// The short names of days.
pub open spec fn weekday_texts(days: Seq<int>) -> Seq<Seq<char>> {
    Seq::new(days.len(), |i: int| weekday_text(days[i]))
}

/// How the days of a day-of-week field read, with the time of day. An expression
/// whose field names no day stands for itself.
pub open spec fn days_label(expr: Seq<char>, dow: Seq<char>, time: Seq<char>) -> Seq<char> {
    let days = field_days(dow, 7);
    if days == seq![0int, 1int, 2int, 3int, 4int] {
        "Weekdays at "@ + time
    } else if days.len() == 0 {
        expr
    } else {
        text::join(weekday_texts(days), ", "@) + " at "@ + time
    }
}

/// How the days of a day-of-week field read: Monday to Friday as "Weekdays",
/// other days by their short names in week order.
fn weekday_label(expr: &str, dow: &str, time: &str) -> (r: String)
    ensures
        r@ == days_label(expr@, dow@, time@),
{
    let days: Vec<u32> = parse_dow(dow);
    let ghost all = field_days(dow@, 7);
    proof {
        assert(days@.len() == all.len());
        assert forall|i: int| 0 <= i < all.len() implies days@[i] as int == all[i] by {
            assert(days@.map_values(|d: u32| d as int)[i] == all[i]);
        }
    }
    if days.len() == 5 && days[0] == 0 && days[1] == 1 && days[2] == 2 && days[3] == 3 && days[4]
        == 4 {
        proof {
            assert(all =~= seq![0int, 1int, 2int, 3int, 4int]);
        }
        let mut out: String = "Weekdays at ".to_owned();
        out.append(time);
        return out;
    }
    proof {
        if all == seq![0int, 1int, 2int, 3int, 4int] {
            assert(all[0] == 0 && all[1] == 1 && all[2] == 2 && all[3] == 3 && all[4] == 4);
        }
    }
    if days.len() == 0 {
        return expr.to_owned();
    }
    let mut names: Vec<String> = Vec::new();
    let mut i: usize = 0;
    while i < days.len()
        invariant
            i <= days@.len(),
            days@.len() == all.len(),
            forall|i: int| 0 <= i < all.len() ==> days@[i] as int == #[trigger] all[i],
            text::views(names@) == weekday_texts(all).take(i as int),
        decreases days@.len() - i,
    {
        let ghost before = text::views(names@);
        names.push(weekday_name(days[i]).to_owned());
        proof {
            assert(days@[i as int] as int == all[i as int]);
            assert(text::views(names@) =~= before.push(weekday_text(all[i as int])));
            assert(weekday_texts(all).take(i + 1) =~= weekday_texts(all).take(i as int).push(
                weekday_text(all[i as int]),
            ));
        }
        i = i + 1;
    }
    proof {
        assert(weekday_texts(all).take(i as int) =~= weekday_texts(all));
    }
    let mut out: String = text::join_all(&names, ", ");
    out.append(" at ");
    out.append(time);
    out
}

// ---------------------------------------------------------------------------
// Cadence labels
// ---------------------------------------------------------------------------

/// A time of day on a twelve-hour clock, such as `9:05 AM`.
pub open spec fn clock_text(hour: int, minute: int) -> Seq<char> {
    let h = if hour % 12 == 0 {
        12int
    } else {
        hour % 12
    };
    number::decimal(h as nat) + ":"@ + number::two_digits(minute as nat) + (if hour >= 12 {
        " PM"@
    } else {
        " AM"@
    })
}

/// A time of day on a twelve-hour clock, such as `9:05 AM`.
fn format_time(hour: u32, minute: u32) -> (r: String)
    requires
        hour < 24,
        minute < 60,
    ensures
        r@ == clock_text(hour as int, minute as int),
{
    let h: u64 = if hour % 12 == 0 {
        12
    } else {
        (hour % 12) as u64
    };
    let mut out: String = number::u64_text(h);
    out.append(":");
    let m: String = number::two_digit_text(minute as u64);
    out.append(m.as_str());
    if hour >= 12 {
        out.append(" PM");
    } else {
        out.append(" AM");
    }
    out
}

/// How the cadence of an expression reads, given the time of day of its next
/// occurrence. An expression of any other shape stands for itself.
pub open spec fn cadence(expr: Seq<char>, hour: int, minute: int) -> Seq<char> {
    let time = clock_text(hour, minute);
    let fields = text::runs(expr, CharClass::NonSpace);
    if fields.len() == 6 && fields[2] == "*"@ && fields[1] != "*"@ {
        "Hourly"@
    } else if fields.len() == 6 && fields[5] == "*"@ && fields[3] == "*"@ {
        "Daily at "@ + time
    } else if fields.len() == 6 && fields[3] == "*"@ {
        days_label(expr, fields[5], time)
    } else if fields.len() == 6 && fields[5] == "*"@ && number::number_of(fields[3]) is Some
        && number::number_of(fields[3])->0 <= u32::MAX {
        "Monthly on day "@ + number::decimal(number::number_of(fields[3])->0) + " at "@ + time
    } else {
        expr
    }
}

/// The label of an expression that can be read: its cadence, or the expression
/// itself where it has no next occurrence.
pub open spec fn label(expr: Seq<char>, at: Option<(u32, u32)>) -> Seq<char> {
    match at {
        Some(clock) => cadence(expr, clock.0 as int, clock.1 as int),
        None => expr,
    }
}

/// The label of an expression whose next occurrence is at that hour and minute
/// of the local clock; the expression itself where there is no next one.
pub fn label_at(expr: &str, at: Option<(u32, u32)>) -> (r: String)
    requires
        at matches Some(clock) ==> clock.0 < 24 && clock.1 < 60,
    ensures
        r@ == label(expr@, at),
{
    let (hour, minute): (u32, u32) = match at {
        Some(clock) => clock,
        None => {
            return expr.to_owned();
        },
    };
    let time: String = format_time(hour, minute);
    let fields: Vec<String> = text::runs_of(expr, CharClass::NonSpace);
    let ghost fv = text::runs(expr@, CharClass::NonSpace);
    if fields.len() == 6 {
        proof {
            assert(fv[1] == fields@[1]@ && fv[2] == fields@[2]@ && fv[3] == fields@[3]@ && fv[5]
                == fields@[5]@);
        }
        let any_dom = same_text(fields[3].as_str(), "*");
        let any_dow = same_text(fields[5].as_str(), "*");
        if same_text(fields[2].as_str(), "*") && !same_text(fields[1].as_str(), "*") {
            return "Hourly".to_owned();
        }
        if any_dow && any_dom {
            let mut out: String = "Daily at ".to_owned();
            out.append(time.as_str());
            return out;
        }
        if any_dom {
            return weekday_label(expr, fields[5].as_str(), time.as_str());
        }
        if any_dow {
            if let Some(day) = number::parse_number(fields[3].as_str(), u32::MAX as u64) {
                let mut out: String = "Monthly on day ".to_owned();
                let d: String = number::u64_text(day);
                out.append(d.as_str());
                out.append(" at ");
                out.append(time.as_str());
                return out;
            }
        }
    }
    expr.to_owned()
}

/// Whether `at` is what the local clock showed at an instant.
pub closed spec fn given_clock(ms: i64, at: Option<(u32, u32)>) -> bool {
    call_ensures(local_clock, (ms,), at)
}

/// Whether `r` labels an expression that can be read by what the local clock
/// shows at the first occurrence which its schedule gave from an instant on.
pub open spec fn labels(expr: Seq<char>, now_ms: i64, r: Seq<char>) -> bool {
    exists|s: &str, t: Option<i64>, at: Option<(u32, u32)>| #[trigger]
        given_after(s, now_ms, 0, t) && s@ == expr && (t is None ==> at is None) && (
        t matches Some(x) ==> given_clock(x, at)) && (at matches Some(clock) ==> clock.0 < 24
            && clock.1 < 60) && r == #[trigger] label(expr, at)
}

/// How the cadence of an expression reads at the instant `now_ms`, such as
/// "Daily at 5:00 PM" or "Mon, Wed, Fri at 10:30 AM". An expression that cannot
/// be read, that never occurs again or that has another shape stands for itself.
pub fn cadence_label(expr: &str, now_ms: i64) -> (r: String)
    requires
        in_calendar(now_ms as int),
    ensures
        cron_fault(expr@) is Some ==> r@ == expr@,
        cron_fault(expr@) is None ==> labels(expr@, now_ms, r@),
{
    let schedule: Schedule = match parse(expr) {
        Ok(s) => s,
        Err(_) => {
            return expr.to_owned();
        },
    };
    let source: &str = schedule.source();
    let t: Option<i64> = occurrence_after(source, now_ms, 0);
    let at: Option<(u32, u32)> = match t {
        Some(x) => local_clock(x),
        None => None,
    };
    proof {
        assert(given_after(source, now_ms, 0, t));
        assert(t matches Some(x) ==> given_clock(x, at));
    }
    label_at(expr, at)
}

// ---------------------------------------------------------------------------
// Presets
// ---------------------------------------------------------------------------

/// `0 {minute} {hour} {dom} * {dow}`.
pub open spec fn preset(
    hour: Seq<char>,
    minute: nat,
    dom: Seq<char>,
    dow: Seq<char>,
) -> Seq<char> {
    "0 "@ + number::decimal(minute) + " "@ + hour + " "@ + dom + " * "@ + dow
}

/// `0 {minute} {hour} {dom} * {dow}`.
fn preset_text(hour: &str, minute: u32, dom: &str, dow: &str) -> (r: String)
    ensures
        r@ == preset(hour@, minute as nat, dom@, dow@),
{
    let mut out: String = "0 ".to_owned();
    let m: String = number::u64_text(minute as u64);
    out.append(m.as_str());
    out.append(" ");
    out.append(hour);
    out.append(" ");
    out.append(dom);
    out.append(" * ");
    out.append(dow);
    out
}

/// Every day at that time.
pub fn daily(hour: u32, minute: u32) -> (r: String)
    ensures
        r@ == preset(number::decimal(hour as nat), minute as nat, "*"@, "*"@),
{
    let h: String = number::u64_text(hour as u64);
    preset_text(h.as_str(), minute, "*", "*")
}

/// Every week at that time, on the days of a day-of-week field.
pub fn weekly(hour: u32, minute: u32, dow: &str) -> (r: String)
    ensures
        r@ == preset(number::decimal(hour as nat), minute as nat, "*"@, dow@),
{
    let h: String = number::u64_text(hour as u64);
    preset_text(h.as_str(), minute, "*", dow)
}

/// Every month at that time, on that day.
pub fn monthly(hour: u32, minute: u32, day: u32) -> (r: String)
    ensures
        r@ == preset(number::decimal(hour as nat), minute as nat, number::decimal(day as nat), "*"@),
{
    let h: String = number::u64_text(hour as u64);
    let d: String = number::u64_text(day as u64);
    preset_text(h.as_str(), minute, d.as_str(), "*")
}

/// Every hour at that minute.
pub fn hourly(minute: u32) -> (r: String)
    ensures
        r@ == preset("*"@, minute as nat, "*"@, "*"@),
{
    preset_text("*", minute, "*", "*")
}

/// Whether a text can stand as one field of an expression.
pub open spec fn is_field(s: Seq<char>) -> bool {
    s.len() > 0 && forall|i: int| 0 <= i < s.len() ==> !text::is_space(#[trigger] s[i])
}

/// A number is one field of an expression, and not the wildcard.
proof fn lemma_number_is_field(n: nat)
    ensures
        is_field(number::decimal(n)),
        number::decimal(n) != "*"@,
{
    number::lemma_decimal_digits(n);
    reveal_strlit("*");
    let d = number::decimal(n);
    assert(text::ascii_digit(d[0]));
    assert("*"@[0] == '*');
    assert forall|i: int| 0 <= i < d.len() implies !text::is_space(#[trigger] d[i]) by {
        assert(text::ascii_digit(d[i]));
    }
}

/// One field, the space after it and the fields that follow.
proof fn lemma_field_then(a: Seq<char>, rest: Seq<char>)
    requires
        is_field(a),
    ensures
        text::runs(a + " "@ + rest, CharClass::NonSpace) == seq![a] + text::runs(
            rest,
            CharClass::NonSpace,
        ),
{
    reveal_strlit(" ");
    let tail = " "@ + rest;
    assert(a + " "@ + rest =~= a + tail);
    assert(tail[0] == ' ');
    text::lemma_runs_first(a, tail, CharClass::NonSpace);
    assert(tail.skip(1) =~= rest);
}

/// The six fields of a preset.
proof fn lemma_preset_fields(hour: Seq<char>, minute: nat, dom: Seq<char>, dow: Seq<char>)
    requires
        is_field(hour),
        is_field(dom),
        is_field(dow),
    ensures
        text::runs(preset(hour, minute, dom, dow), CharClass::NonSpace) == seq![
            "0"@,
            number::decimal(minute),
            hour,
            dom,
            "*"@,
            dow,
        ],
{
    let class = CharClass::NonSpace;
    let m = number::decimal(minute);
    lemma_number_is_field(minute);
    reveal_strlit("0 ");
    reveal_strlit("0");
    reveal_strlit(" ");
    reveal_strlit(" * ");
    reveal_strlit("*");
    let t5 = "*"@ + " "@ + dow;
    let t4 = dom + " "@ + t5;
    let t3 = hour + " "@ + t4;
    let t2 = m + " "@ + t3;
    let t1 = "0"@ + " "@ + t2;
    assert(preset(hour, minute, dom, dow) =~= t1);
    assert("0"@[0] == '0' && "*"@[0] == '*');
    assert(is_field("0"@));
    assert(is_field("*"@));
    lemma_field_then("0"@, t2);
    lemma_field_then(m, t3);
    lemma_field_then(hour, t4);
    lemma_field_then(dom, t5);
    lemma_field_then("*"@, dow);
    text::lemma_runs_first(dow, Seq::empty(), class);
    assert(dow + Seq::<char>::empty() =~= dow);
    assert(text::runs(t1, class) =~= seq!["0"@, m, hour, dom, "*"@, dow]);
}

/// The label of each preset says what the preset was made of: a daily one reads
/// as daily, a weekly one by its days, a monthly one by its day and an hourly
/// one as hourly, whatever the time of day.
pub proof fn law_presets_are_labelled(
    hour: nat,
    minute: nat,
    day: nat,
    dow: Seq<char>,
    at_hour: int,
    at_minute: int,
)
    requires
        day <= u32::MAX,
        is_field(dow),
        dow != "*"@,
    ensures
        cadence(preset(number::decimal(hour), minute, "*"@, "*"@), at_hour, at_minute)
            == "Daily at "@ + clock_text(at_hour, at_minute),
        cadence(preset(number::decimal(hour), minute, "*"@, dow), at_hour, at_minute)
            == days_label(
            preset(number::decimal(hour), minute, "*"@, dow),
            dow,
            clock_text(at_hour, at_minute),
        ),
        cadence(
            preset(number::decimal(hour), minute, number::decimal(day), "*"@),
            at_hour,
            at_minute,
        ) == "Monthly on day "@ + number::decimal(day) + " at "@ + clock_text(at_hour, at_minute),
        cadence(preset("*"@, minute, "*"@, "*"@), at_hour, at_minute) == "Hourly"@,
{
    let h = number::decimal(hour);
    let d = number::decimal(day);
    let any = "*"@;
    lemma_number_is_field(hour);
    lemma_number_is_field(minute);
    lemma_number_is_field(day);
    number::lemma_number_of_decimal(day);
    assert(is_field(any)) by {
        reveal_strlit("*");
        assert("*"@[0] == '*');
    }
    lemma_preset_fields(h, minute, any, any);
    lemma_preset_fields(h, minute, any, dow);
    lemma_preset_fields(h, minute, d, any);
    lemma_preset_fields(any, minute, any, any);
}

} // verus!
