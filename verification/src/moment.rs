//! Points in time without a time zone, to the nanosecond, and the steps between
//! them.
use vstd::prelude::*;
use std::fmt::Write;

verus! {

/// Nanoseconds in a second.
pub const NANOS: i128 = 1_000_000_000;

/// The second of the first moment of the calendar.
pub const MIN_SECS: i64 = -8_334_601_228_800;

/// The second of the last moment of the calendar.
pub const MAX_SECS: i64 = 8_210_266_876_799;

/// A point in time: whole seconds since 1970-01-01 00:00:00, and nanoseconds
/// past them. There are no leap seconds.
#[derive(Clone, Copy, Debug, PartialEq, Eq, Hash, Structural)]
pub struct Moment {
    pub secs: i64,
    pub nanos: u32,
}

/// The nanosecond of the first moment of the calendar.
pub open spec fn min_at() -> int {
    MIN_SECS * NANOS
}

/// The nanosecond of the last moment of the calendar.
pub open spec fn max_at() -> int {
    MAX_SECS * NANOS + (NANOS - 1)
}

/// Whether a number of nanoseconds since 1970 lies in the calendar.
pub open spec fn in_calendar(at: int) -> bool {
    min_at() <= at <= max_at()
}

/// The place `step` nanoseconds after `at`, where the calendar has it.
pub open spec fn stepped(at: int, step: int) -> Option<int> {
    if in_calendar(at + step) {
        Some(at + step)
    } else {
        None
    }
}

/// The places of a list of moments.
pub open spec fn places(v: Seq<Moment>) -> Seq<int> {
    v.map_values(|m: Moment| m.at())
}

impl Moment {
    /// A moment of the calendar.
    pub open spec fn wf(self) -> bool {
        MIN_SECS <= self.secs <= MAX_SECS && self.nanos < NANOS
    }

    /// Nanoseconds since 1970.
    pub open spec fn at(self) -> int {
        self.secs * NANOS + self.nanos
    }

    /// The last moment of the calendar.
    pub fn last() -> (r: Moment)
        ensures
            r.wf(),
            r.at() == max_at(),
    {
        Moment { secs: MAX_SECS, nanos: 999_999_999 }
    }

    /// Nanoseconds since 1970.
    pub fn total(self) -> (r: i128)
        ensures
            r == self.at(),
    {
        self.secs as i128 * NANOS + self.nanos as i128
    }

    /// The moment at a place of the calendar.
    pub fn from_total(total: i128) -> (r: Moment)
        requires
            in_calendar(total as int),
        ensures
            r.wf(),
            r.at() == total,
    {
        if total >= 0 {
            let secs: i128 = total / NANOS;
            let nanos: i128 = total % NANOS;
            Moment { secs: secs as i64, nanos: nanos as u32 }
        } else {
            let below: i128 = -total;
            let up: i128 = (below + (NANOS - 1)) / NANOS;
            let nanos: i128 = up * NANOS - below;
            Moment { secs: (-up) as i64, nanos: nanos as u32 }
        }
    }

    /// Whether this moment comes before another.
    pub fn before(self, other: Moment) -> (r: bool)
        ensures
            r == (self.at() < other.at()),
    {
        self.total() < other.total()
    }

    /// The earlier of two moments.
    pub fn earlier(self, other: Moment) -> (r: Moment)
        ensures
            r == if other.at() < self.at() {
                other
            } else {
                self
            },
    {
        if other.before(self) {
            other
        } else {
            self
        }
    }

    /// The later of two moments.
    pub fn later(self, other: Moment) -> (r: Moment)
        ensures
            r == if self.at() < other.at() {
                other
            } else {
                self
            },
    {
        if self.before(other) {
            other
        } else {
            self
        }
    }

    /// The moment `step` nanoseconds later (earlier where `step` is negative), if
    /// the calendar has it.
    pub fn step(self, step: i128) -> (r: Option<Moment>)
        requires
            self.wf(),
        ensures
            match r {
                Some(m) => m.wf() && stepped(self.at(), step as int) == Some(m.at()),
                None => stepped(self.at(), step as int) is None,
            },
    {
        let here: i128 = self.total();
        let low: i128 = MIN_SECS as i128 * NANOS;
        let high: i128 = MAX_SECS as i128 * NANOS + (NANOS - 1);
        if step > high - here || step < low - here {
            None
        } else {
            Some(Moment::from_total(here + step))
        }
    }
}

/// Two moments at one place are the same moment.
pub proof fn lemma_place_is_moment(a: Moment, b: Moment)
    requires
        a.wf(),
        b.wf(),
        a.at() == b.at(),
    ensures
        a == b,
{
}

/// How a moment reads under a format, where the format is usable.
pub uninterp spec fn format_text(at: int, fmt: Seq<char>) -> Option<Seq<char>>;

/// Whether a format is usable: it is for every moment, or for none.
pub open spec fn usable(fmt: Seq<char>) -> bool {
    format_text(0, fmt) is Some
}

/// How a moment reads under a format, where the format is usable.
pub open spec fn formatted(at: int, fmt: Seq<char>) -> Option<Seq<char>> {
    if usable(fmt) {
        Some(format_text(at, fmt)->Some_0)
    } else {
        None
    }
}

/// What `chrono::NaiveDateTime::format` shows of a moment: `None` where the
/// format holds an item that cannot be shown, whatever the moment. How each item reads
/// is not stated.
#[verifier::external_body]
fn chrono_format(t: Moment, fmt: &str) -> (r: Option<String>)
    requires
        t.wf(),
    ensures
        match r {
            Some(s) => usable(fmt@) && format_text(t.at(), fmt@) == Some(s@),
            None => !usable(fmt@),
        },
{
    let naive = chrono::DateTime::from_timestamp(t.secs, t.nanos)?.naive_utc();
    let mut out = String::new();
    match write!(out, "{}", naive.format(fmt)) {
        Ok(()) => Some(out),
        Err(_) => None,
    }
}

/// The text of a moment under a format.
pub fn format_moment(t: Moment, fmt: &str) -> (r: Option<String>)
    requires
        t.wf(),
    ensures
        match r {
            Some(s) => formatted(t.at(), fmt@) == Some(s@),
            None => formatted(t.at(), fmt@) is None,
        },
{
    chrono_format(t, fmt)
}

/// How a moment reads in messages.
pub uninterp spec fn moment_form(at: int) -> Seq<char>;

/// The `std::fmt::Display` form of a `chrono::NaiveDateTime`. How it reads is
/// not stated.
#[verifier::external_body]
fn chrono_display(t: Moment) -> (r: String)
    requires
        t.wf(),
    ensures
        r@ == moment_form(t.at()),
{
    match chrono::DateTime::from_timestamp(t.secs, t.nanos) {
        Some(moment) => moment.naive_utc().to_string(),
        None => String::new(),
    }
}

/// The text of a moment in messages.
pub fn moment_text(t: Moment) -> (r: String)
    requires
        t.wf(),
    ensures
        r@ == moment_form(t.at()),
{
    chrono_display(t)
}

/// The wall clock of the machine, `chrono::Local::now`, without its time zone. It
/// is some moment of the calendar; which one is not stated.
#[verifier::external_body]
fn chrono_now() -> (r: Moment)
    ensures
        r.wf(),
{
    let now = chrono::Local::now().naive_local().and_utc();
    Moment { secs: now.timestamp(), nanos: now.timestamp_subsec_nanos() }
}

/// The present moment.
pub fn local_now() -> (r: Moment)
    ensures
        r.wf(),
{
    chrono_now()
}

/// The first nanosecond of the year 5000, from which on a search does not go on to the
/// next minute, hour or day any more.
pub const SCHEDULE_END: i128 = 95_617_584_000_000_000_000;

/// The first nanosecond of the year 5001, from which on no second is named.
pub const SCHEDULE_LAST: i128 = 95_649_120_000_000_000_000;

/// The nanoseconds of a minute.
pub const MINUTE_NS: i128 = 60_000_000_000;

/// The nanoseconds of an hour.
pub const HOUR_NS: i128 = 3_600_000_000_000;

/// The nanoseconds of a day.
pub const DAY_NS: i128 = 86_400_000_000_000;

/// What is wrong with a schedule, where it cannot be read.
pub uninterp spec fn schedule_fault(expr: Seq<char>) -> Option<Seq<char>>;

/// Whether a schedule names a second, by its number in the minute.
pub uninterp spec fn second_named(expr: Seq<char>, second: int) -> bool;

/// Whether a schedule names a minute, by the place at which it starts.
pub uninterp spec fn minute_named(expr: Seq<char>, minute: int) -> bool;

/// How far past a place between two seconds a search from there finds an occurrence, or
/// why a search finds none.
pub uninterp spec fn far_search(expr: Seq<char>, from: int) -> Result<nat, Seq<char>>;

/// Whether a place lies on a whole second.
pub open spec fn on_second(at: int) -> bool {
    at % (NANOS as int) == 0
}

/// The start of the block of a length in which a place lies.
#[verifier::opaque]
pub open spec fn block_of(at: int, length: int) -> int {
    at - at % length
}

/// The start of the minute of a place.
pub open spec fn minute_of(at: int) -> int {
    block_of(at, MINUTE_NS as int)
}

/// The start of the hour of a place.
pub open spec fn hour_of(at: int) -> int {
    block_of(at, HOUR_NS as int)
}

/// The start of the day of a place.
pub open spec fn day_of(at: int) -> int {
    block_of(at, DAY_NS as int)
}

/// The number of a second in its minute.
pub open spec fn second_of(at: int) -> int {
    (at - minute_of(at)) / (NANOS as int)
}

/// Whether a schedule names a second.
pub open spec fn fires(expr: Seq<char>, at: int) -> bool {
    second_named(expr, second_of(at)) && minute_named(expr, minute_of(at))
}

/// Whether a schedule names a second of `[from, to)`.
pub open spec fn fires_within(expr: Seq<char>, from: int, to: int) -> bool {
    exists|u: int| from <= u < to && on_second(u) && #[trigger] fires(expr, u)
}

/// Whether `t` is the first second from a place on that a schedule names.
pub open spec fn is_first_fire(expr: Seq<char>, from: int, t: int) -> bool {
    &&& from <= t < SCHEDULE_LAST
    &&& on_second(t)
    &&& fires(expr, t)
    &&& forall|u: int| from <= u < t && on_second(u) ==> !#[trigger] fires(expr, u)
}

/// The first second from a place on that a schedule names.
pub open spec fn first_fire(expr: Seq<char>, from: int) -> Option<int> {
    if exists|t: int| is_first_fire(expr, from, t) {
        Some(choose|t: int| is_first_fire(expr, from, t))
    } else {
        None
    }
}

/// Whether a search in the year 5000 gets from a second to the next that is named, though
/// it goes on to no other day, nor from an hour with a named second to another, nor from
/// a minute with one to another.
pub open spec fn reached(expr: Seq<char>, from: int, t: int) -> bool {
    &&& day_of(from) == day_of(t)
    &&& fires_within(expr, hour_of(from), from) ==> hour_of(from) == hour_of(t)
    &&& fires_within(expr, minute_of(from), from) ==> minute_of(from) == minute_of(t)
}

/// A place, or the start of the year 5000 where that is later.
pub open spec fn late_start(from: int) -> int {
    if from < SCHEDULE_END {
        SCHEDULE_END as int
    } else {
        from
    }
}

/// The occurrence that a search from a place on finds: from a whole second on the first
/// second that the schedule names, where that lies before the year 5000 or is reached in
/// it. From a place between two seconds only that the search goes forward is said.
pub open spec fn search(expr: Seq<char>, from: int) -> Result<int, Seq<char>> {
    if on_second(from) {
        match first_fire(expr, from) {
            Some(t) => if t < SCHEDULE_END || reached(expr, late_start(from), t) {
                Ok(t)
            } else {
                Err(far_search(expr, from)->Err_0)
            },
            None => Err(far_search(expr, from)->Err_0),
        }
    } else {
        match far_search(expr, from) {
            Ok(n) => Ok(from + n),
            Err(e) => Err(e),
        }
    }
}

/// How much of the calendar is left from a place on.
pub open spec fn calendar_left(from: int) -> nat {
    if from > max_at() {
        0
    } else {
        (max_at() - from + 1) as nat
    }
}

/// The occurrences of a schedule from a place on, in order: each search goes on two
/// seconds past the occurrence before, and the first that finds none ends the walk.
#[verifier::opaque]
pub open spec fn walk_from(expr: Seq<char>, from: int) -> Seq<int>
    decreases calendar_left(from),
{
    match search(expr, from) {
        Ok(t) => if from <= t <= max_at() {
            seq![t] + walk_from(expr, t + 2 * NANOS)
        } else {
            Seq::empty()
        },
        Err(_) => Seq::empty(),
    }
}

/// The occurrences of a schedule from a place on, in order, or what is wrong
/// with the schedule.
pub open spec fn cron_ticks(expr: Seq<char>, from: int) -> Result<Seq<int>, Seq<char>> {
    match schedule_fault(expr) {
        Some(e) => Err(e),
        None => Ok(walk_from(expr, from)),
    }
}

/// The first `count` items of the walk that `croner::Cron::iter_from` makes
/// forward from a moment, or what `croner::parser::CronParser::parse` reports. From a
/// whole second on the walk meets, each time, the first second for which
/// `croner::Cron::is_time_matching` holds, from two seconds past the one before: one that
/// `croner::pattern::CronPattern::second_match` admits, of a minute that the other fields
/// admit. In the year 5000, the last that is searched, `croner` does not go on to the next
/// minute, hour or day, so the walk ends where it would have to. Which seconds are named
/// is not stated, nor what is found from between two seconds.
#[verifier::external_body]
fn croner_walk(expr: &str, from: Moment, count: usize) -> (r: Result<Vec<Moment>, String>)
    requires
        from.wf(),
    ensures
        match r {
            Ok(v) => {
                &&& cron_ticks(expr@, from.at()) matches Ok(ts) && places(v@) == ts.take(
                    if count < ts.len() {
                        count as int
                    } else {
                        ts.len() as int
                    },
                )
                &&& forall|i: int| 0 <= i < v@.len() ==> (#[trigger] v@[i]).wf()
                &&& forall|i: int|
                    0 <= i < v@.len() && on_second(from.at()) ==> second_named(
                        expr@,
                        second_of((#[trigger] v@[i]).at()),
                    ) && minute_named(expr@, minute_of(v@[i].at()))
            },
            Err(e) => schedule_fault(expr@) == Some(e@),
        },
{
    let parser = croner::parser::CronParser::builder();
    let parser = parser.seconds(croner::parser::Seconds::Optional).build();
    let cron = parser.parse(expr).map_err(|e| e.to_string())?;
    let start = chrono::DateTime::from_timestamp(from.secs, from.nanos).unwrap_or_default();
    let ticks = cron.iter_from(start, croner::Direction::Forward).take(count);
    let moment = |t: chrono::DateTime<chrono::Utc>| Moment {
        secs: t.timestamp(),
        nanos: t.timestamp_subsec_nanos(),
    };
    Ok(ticks.map(moment).collect())
}

/// Why a schedule names no next occurrence.
#[derive(Debug)]
pub enum CronFault {
    /// The schedule cannot be read.
    Schedule(String),
    /// The schedule has no further occurrence.
    Search(String),
}

/// The first occurrence of a schedule after a place; the fault is that of the
/// schedule where the flag holds, else that of the search.
pub open spec fn cron_next(expr: Seq<char>, after: int) -> Result<int, (bool, Seq<char>)> {
    match schedule_fault(expr) {
        Some(e) => Err((true, e)),
        None => match search(expr, after + NANOS) {
            Ok(t) => Ok(t),
            Err(e) => Err((false, e)),
        },
    }
}

/// The occurrence that `croner::Cron::find_next_occurrence` finds after a moment,
/// or what it or `croner::parser::CronParser::parse` reports. After a whole second it
/// is the first later second for which `croner::Cron::is_time_matching` holds, where that
/// lies before the year 5000, or in it without going on to the next minute, hour or day;
/// which one that is, is not stated, nor what is found after a place between two seconds.
#[verifier::external_body]
fn croner_next(expr: &str, after: Moment) -> (r: Result<Moment, CronFault>)
    requires
        after.wf(),
    ensures
        match r {
            Ok(m) => m.wf() && cron_next(expr@, after.at()) == Ok::<int, (bool, Seq<char>)>(m.at()),
            Err(CronFault::Schedule(e)) => cron_next(expr@, after.at()) == Err::<
                int,
                (bool, Seq<char>),
            >((true, e@)),
            Err(CronFault::Search(e)) => cron_next(expr@, after.at()) == Err::<
                int,
                (bool, Seq<char>),
            >((false, e@)) && far_search(expr@, after.at() + NANOS) == Err::<nat, Seq<char>>(e@),
        },
{
    let parser = croner::parser::CronParser::builder();
    let parser = parser.seconds(croner::parser::Seconds::Optional).build();
    let cron = parser.parse(expr).map_err(|e| CronFault::Schedule(e.to_string()))?;
    let start = chrono::DateTime::from_timestamp(after.secs, after.nanos).unwrap_or_default();
    let next = cron.find_next_occurrence(&start, false);
    let next = next.map_err(|e| CronFault::Search(e.to_string()))?;
    Ok(Moment { secs: next.timestamp(), nanos: next.timestamp_subsec_nanos() })
}

/// The first occurrence of a schedule after a moment.
pub fn next_cron_tick(expr: &str, after: Moment) -> (r: Result<Moment, CronFault>)
    requires
        after.wf(),
    ensures
        match r {
            Ok(m) => m.wf() && cron_next(expr@, after.at()) == Ok::<int, (bool, Seq<char>)>(m.at()),
            Err(CronFault::Schedule(e)) => cron_next(expr@, after.at()) == Err::<
                int,
                (bool, Seq<char>),
            >((true, e@)),
            Err(CronFault::Search(e)) => cron_next(expr@, after.at()) == Err::<
                int,
                (bool, Seq<char>),
            >((false, e@)),
        },
{
    croner_next(expr, after)
}

/// How many places of a walk come before the first that does not lie before
/// `end`.
pub open spec fn count_before(ts: Seq<int>, end: int) -> nat
    decreases ts.len(),
{
    if ts.len() == 0 || ts[0] >= end {
        0
    } else {
        1 + count_before(ts.drop_first(), end)
    }
}

/// The places of a walk before the first that does not lie before `end`.
pub open spec fn walk_before(ts: Seq<int>, end: int) -> Seq<int> {
    ts.take(count_before(ts, end) as int)
}

/// The number of places that a walk yields before `end`, said by position.
pub proof fn lemma_count_before(ts: Seq<int>, end: int, n: int)
    requires
        0 <= n <= ts.len(),
        forall|i: int| 0 <= i < n ==> ts[i] < end,
        n < ts.len() ==> ts[n] >= end,
    ensures
        count_before(ts, end) == n,
    decreases n,
{
    if n > 0 {
        let rest = ts.drop_first();
        assert forall|i: int| 0 <= i < n - 1 implies rest[i] < end by {
            assert(ts[i + 1] < end);
        }
        lemma_count_before(rest, end, n - 1);
    }
}

/// The walk before `end` is a prefix, and all of its places lie before `end`.
pub proof fn lemma_walk_before(ts: Seq<int>, end: int)
    ensures
        count_before(ts, end) <= ts.len(),
        forall|i: int| 0 <= i < count_before(ts, end) ==> ts[i] < end,
        count_before(ts, end) < ts.len() ==> ts[count_before(ts, end) as int] >= end,
    decreases ts.len(),
{
    if ts.len() > 0 && ts[0] < end {
        let rest = ts.drop_first();
        lemma_walk_before(rest, end);
        assert forall|i: int| 0 <= i < count_before(ts, end) implies ts[i] < end by {
            if i > 0 {
                assert(rest[i - 1] < end);
            }
        }
        if count_before(ts, end) < ts.len() {
            assert(rest[count_before(rest, end) as int] >= end);
        }
    }
}

/// The smaller of a limit and a length.
pub open spec fn at_most(limit: int, len: int) -> int {
    if limit < len {
        limit
    } else {
        len
    }
}

/// The occurrences of a schedule in `[from, end)`, at most `limit` of them.
pub fn cron_ticks_before(expr: &str, from: Moment, end: Moment, limit: usize) -> (r: Result<
    Vec<Moment>,
    String,
>)
    requires
        from.wf(),
    ensures
        match r {
            Ok(v) => {
                &&& cron_ticks(expr@, from.at()) matches Ok(ts) && places(v@) == walk_before(
                    ts,
                    end.at(),
                ).take(at_most(limit as int, count_before(ts, end.at()) as int))
                &&& forall|i: int| 0 <= i < v@.len() ==> (#[trigger] v@[i]).wf()
            },
            Err(e) => cron_ticks(expr@, from.at()) == Err::<Seq<int>, Seq<char>>(e@),
        },
{
    let mut ask: usize = if limit < 64 {
        limit
    } else {
        64
    };
    loop
        invariant
            from.wf(),
            ask <= limit,
            ask < 64 ==> ask == limit,
        decreases limit - ask,
    {
        let mut v = croner_walk(expr, from, ask)?;
        let mut n: usize = 0;
        while n < v.len() && v[n].before(end)
            invariant
                n <= v@.len(),
                forall|i: int| 0 <= i < n ==> (#[trigger] v@[i]).at() < end.at(),
            decreases v@.len() - n,
        {
            n += 1;
        }
        let ghost all = v@;
        let ghost ts = cron_ticks(expr@, from.at())->Ok_0;
        proof {
            assert(places(all).len() == all.len());
            assert forall|i: int| 0 <= i < all.len() implies ts[i] == all[i].at() by {
                assert(places(all)[i] == all[i].at());
            }
        }
        if n < v.len() || v.len() < ask || ask == limit {
            v.truncate(n);
            proof {
                lemma_walk_before(ts, end.at());
                let c = count_before(ts, end.at()) as int;
                if n < all.len() {
                    assert(ts[n as int] == all[n as int].at());
                    lemma_count_before(ts, end.at(), n as int);
                } else if all.len() < ask {
                    lemma_count_before(ts, end.at(), n as int);
                } else {
                    if c < n {
                        assert(ts[c] >= end.at());
                        assert(all[c].at() < end.at());
                    }
                }
                assert(places(v@) =~= walk_before(ts, end.at()).take(at_most(limit as int, c)));
            }
            return Ok(v);
        }
        ask = if ask > limit / 2 {
            limit
        } else {
            ask * 2
        };
    }
}

} // verus!
