//! Time grids: the window starts of a time-partitioned scheme and the keys that
//! they read as.
use vstd::prelude::*;
use vstd::string::*;
use crate::errors::{Fault, FaultKind, FaultView};
use crate::moment::{
    at_most, cron_ticks, cron_ticks_before, format_moment, formatted, lemma_walk_before, places,
    walk_before, Moment,
};
use crate::text::{same_text, say3, say4, texts};

verus! {

/// The cadence of a grid with windows of equal length.
#[derive(Debug)]
pub struct Interval {
    /// The length in whole nanoseconds, the rest cut off.
    pub ns: i128,
    /// Whether the length is a finite number.
    pub finite: bool,
    /// The length in seconds in its shortest decimal form: `NaN` for what is no
    /// number, `-0` for the zero below zero.
    pub text: String,
}

/// What an interval stands for.
pub struct IntervalView {
    pub ns: int,
    pub finite: bool,
    pub text: Seq<char>,
}

impl View for Interval {
    type V = IntervalView;

    open spec fn view(&self) -> IntervalView {
        IntervalView { ns: self.ns as int, finite: self.finite, text: self.text@ }
    }
}

/// Whether an interval says what it is: a finite length reads as a number.
pub open spec fn length_wf(i: IntervalView) -> bool {
    i.finite ==> i.text != "NaN"@
}

/// Whether an optional interval says what it is.
pub open spec fn lengths_wf(i: Option<IntervalView>) -> bool {
    match i {
        Some(v) => length_wf(v),
        None => true,
    }
}

impl Interval {
    /// A finite length reads as a number.
    pub open spec fn wf(&self) -> bool {
        length_wf(self@)
    }

    pub fn copy(&self) -> (r: Self)
        ensures
            r@ == self@,
    {
        Interval { ns: self.ns, finite: self.finite, text: self.text.clone() }
    }
}

/// Whether a text is how a zero reads.
pub open spec fn reads_zero(t: Seq<char>) -> bool {
    t == "0"@ || t == "-0"@
}

/// Whether two lengths are the same number: what is no number is not even the same as
/// itself, and the two zeros are one number.
pub open spec fn same_length(a: IntervalView, b: IntervalView) -> bool {
    &&& a.ns == b.ns
    &&& a.finite == b.finite
    &&& a.text != "NaN"@
    &&& a.text == b.text || (reads_zero(a.text) && reads_zero(b.text))
}

/// Whether two optional lengths are the same.
pub open spec fn same_lengths(a: Option<IntervalView>, b: Option<IntervalView>) -> bool {
    match (a, b) {
        (Some(x), Some(y)) => same_length(x, y),
        (None, None) => true,
        _ => false,
    }
}

fn is_zero_text(t: &str) -> (r: bool)
    ensures
        r == reads_zero(t@),
{
    same_text(t, "0") || same_text(t, "-0")
}

/// Whether two optional lengths are the same number.
pub fn equal_lengths(a: &Option<Interval>, b: &Option<Interval>) -> (r: bool)
    ensures
        r == same_lengths(opt_interval(*a), opt_interval(*b)),
{
    match (a, b) {
        (Some(x), Some(y)) => x.ns == y.ns && x.finite == y.finite && !same_text(
            x.text.as_str(),
            "NaN",
        ) && (same_text(x.text.as_str(), y.text.as_str()) || (is_zero_text(x.text.as_str())
            && is_zero_text(y.text.as_str()))),
        (None, None) => true,
        _ => false,
    }
}

/// The window starts of a time-partitioned scheme: a schedule or an interval, the
/// first moment, where the grid ends, and the format of the keys.
#[derive(Debug)]
pub struct TimeGrid {
    pub cron_schedule: Option<String>,
    pub interval_seconds: Option<Interval>,
    pub start: Moment,
    pub end: Option<Moment>,
    pub fmt: String,
}

/// What a time grid stands for.
pub struct GridView {
    pub cron: Option<Seq<char>>,
    pub interval: Option<IntervalView>,
    pub start: int,
    pub end: Option<int>,
    pub fmt: Seq<char>,
}

/// The characters of an optional text.
pub open spec fn opt_text(s: Option<String>) -> Option<Seq<char>> {
    match s {
        Some(t) => Some(t@),
        None => None,
    }
}

/// What an optional interval stands for.
pub open spec fn opt_interval(i: Option<Interval>) -> Option<IntervalView> {
    match i {
        Some(v) => Some(v@),
        None => None,
    }
}

/// The place of an optional moment.
pub open spec fn opt_at(m: Option<Moment>) -> Option<int> {
    match m {
        Some(t) => Some(t.at()),
        None => None,
    }
}

impl View for TimeGrid {
    type V = GridView;

    open spec fn view(&self) -> GridView {
        GridView {
            cron: opt_text(self.cron_schedule),
            interval: opt_interval(self.interval_seconds),
            start: self.start.at(),
            end: opt_at(self.end),
            fmt: self.fmt@,
        }
    }
}

/// How many places `start`, `start + step`, ... lie before `end`.
pub open spec fn interval_count(start: int, step: int, end: int) -> int {
    if end <= start || step <= 0 {
        0
    } else {
        (end - start - 1) / step + 1
    }
}

/// As many places of a walk as a list can hold.
pub open spec fn holdable(ts: Seq<int>) -> Seq<int> {
    ts.take(at_most(usize::MAX as int, ts.len() as int))
}

/// The places `start`, `start + step`, ... before `end`.
pub open spec fn interval_walk(start: int, step: int, end: int) -> Seq<int> {
    Seq::new(interval_count(start, step, end) as nat, |k: int| start + k * step)
}

/// The fault of a schedule that cannot be read.
pub open spec fn bad_schedule(expr: Seq<char>, why: Seq<char>) -> FaultView {
    (FaultKind::Definition, "Invalid cron expression '"@ + expr + "': "@ + why)
}

/// The fault of a format that cannot be used.
pub open spec fn bad_format(fmt: Seq<char>) -> FaultView {
    (FaultKind::Definition, "format '"@ + fmt + "' cannot be used"@)
}

/// The window starts of a grid before `end`. A grid without a cadence has none.
pub open spec fn grid_ticks(g: GridView, end: int) -> Result<Seq<int>, FaultView> {
    match g.interval {
        Some(iv) => Ok(holdable(interval_walk(g.start, iv.ns, end))),
        None => match g.cron {
            Some(expr) => match cron_ticks(expr, g.start) {
                Ok(ts) => Ok(holdable(walk_before(ts, end))),
                Err(why) => Err(bad_schedule(expr, why)),
            },
            None => Ok(Seq::empty()),
        },
    }
}

/// The part of a list from `offset` on, at most `limit` items.
pub open spec fn page<T>(s: Seq<T>, offset: int, limit: int) -> Seq<T> {
    let from = at_most(offset, s.len() as int);
    s.subrange(from, at_most(from + limit, s.len() as int))
}

/// How a list of places reads under a format, where each of them can be shown.
pub open spec fn format_all(ts: Seq<int>, fmt: Seq<char>) -> Result<Seq<Seq<char>>, FaultView>
    decreases ts.len(),
{
    if ts.len() == 0 {
        Ok(Seq::empty())
    } else {
        match format_all(ts.drop_last(), fmt) {
            Err(e) => Err(e),
            Ok(v) => match formatted(ts.last(), fmt) {
                Some(s) => Ok(v.push(s)),
                None => Err(bad_format(fmt)),
            },
        }
    }
}

/// The shown places, one by one.
pub proof fn lemma_format_all(ts: Seq<int>, fmt: Seq<char>)
    ensures
        match format_all(ts, fmt) {
            Ok(v) => v.len() == ts.len() && forall|i: int|
                0 <= i < ts.len() ==> formatted(#[trigger] ts[i], fmt) == Some(v[i]),
            Err(e) => e == bad_format(fmt) && exists|i: int|
                0 <= i < ts.len() && formatted(#[trigger] ts[i], fmt) is None,
        },
    decreases ts.len(),
{
    if ts.len() > 0 {
        lemma_format_all(ts.drop_last(), fmt);
        match format_all(ts.drop_last(), fmt) {
            Ok(v) => {
                if formatted(ts.last(), fmt) is Some {
                    let w = format_all(ts, fmt)->Ok_0;
                    assert forall|i: int| 0 <= i < ts.len() implies formatted(#[trigger] ts[i], fmt)
                        == Some(w[i]) by {
                        if i < ts.len() - 1 {
                            assert(formatted(ts.drop_last()[i], fmt) == Some(v[i]));
                        }
                    }
                } else {
                    assert(formatted(ts[ts.len() - 1], fmt) is None);
                }
            },
            Err(_) => {
                let i = choose|i: int|
                    0 <= i < ts.drop_last().len() && formatted(#[trigger] ts.drop_last()[i], fmt)
                        is None;
                assert(formatted(ts[i], fmt) is None);
            },
        }
    }
}

/// A prefix that cannot be shown decides the whole list.
pub proof fn lemma_format_prefix(ts: Seq<int>, fmt: Seq<char>, n: int)
    requires
        0 <= n <= ts.len(),
        format_all(ts.take(n), fmt) is Err,
    ensures
        format_all(ts, fmt) == format_all(ts.take(n), fmt),
    decreases ts.len(),
{
    if n < ts.len() {
        assert(ts.drop_last().take(n) =~= ts.take(n));
        lemma_format_prefix(ts.drop_last(), fmt, n);
    } else {
        assert(ts.take(n) =~= ts);
    }
}

/// Shows each of a list of moments.
pub fn format_moments(v: &Vec<Moment>, fmt: &str) -> (r: Result<Vec<String>, Fault>)
    requires
        forall|i: int| 0 <= i < v@.len() ==> (#[trigger] v@[i]).wf(),
    ensures
        match r {
            Ok(ks) => format_all(places(v@), fmt@) == Ok::<Seq<Seq<char>>, FaultView>(texts(ks@)),
            Err(e) => format_all(places(v@), fmt@) == Err::<Seq<Seq<char>>, FaultView>(e@),
        },
{
    let mut out: Vec<String> = Vec::new();
    let mut i: usize = 0;
    let ghost ts = places(v@);
    proof {
        assert(ts.take(0) =~= Seq::empty());
        assert(texts(out@) =~= Seq::empty());
    }
    while i < v.len()
        invariant
            forall|j: int| 0 <= j < v@.len() ==> (#[trigger] v@[j]).wf(),
            ts == places(v@),
            i <= v@.len(),
            format_all(ts.take(i as int), fmt@) == Ok::<Seq<Seq<char>>, FaultView>(texts(out@)),
        decreases v@.len() - i,
    {
        proof {
            assert(ts.take(i + 1).drop_last() =~= ts.take(i as int));
            assert(ts.take(i + 1).last() == v@[i as int].at());
        }
        match format_moment(v[i], fmt) {
            Some(s) => {
                let ghost prev = texts(out@);
                let ghost e = s@;
                out.push(s);
                proof {
                    assert(texts(out@) =~= prev.push(e));
                }
            },
            None => {
                proof {
                    lemma_format_prefix(ts, fmt@, i + 1);
                }
                return Err(Fault::definition(say3("format '", fmt, "' cannot be used")));
            },
        }
        i += 1;
    }
    proof {
        assert(ts.take(i as int) =~= ts);
    }
    Ok(out)
}

/// A step of an interval walk belongs to it exactly when it lies before the end.
pub proof fn lemma_interval_end(start: int, step: int, end: int, k: int)
    requires
        step > 0,
        k >= 0,
    ensures
        k < interval_count(start, step, end) <==> start + k * step < end,
{
    if end > start {
        let q = (end - start - 1) / step;
        assert(k <= q <==> k * step <= end - start - 1) by (nonlinear_arith)
            requires
                step > 0,
                q == (end - start - 1) / step,
                end - start - 1 >= 0,
                k >= 0,
        ;
    } else {
        assert(k * step >= 0) by (nonlinear_arith)
            requires
                k >= 0,
                step > 0,
        ;
    }
}

/// The places of an interval walk lie between its start and its end.
pub proof fn lemma_interval_walk(start: int, step: int, end: int)
    requires
        step > 0,
    ensures
        forall|k: int|
            0 <= k < interval_walk(start, step, end).len() ==> start <= #[trigger] interval_walk(
                start,
                step,
                end,
            )[k] < end,
{
    assert forall|k: int| 0 <= k < interval_walk(start, step, end).len() implies start
        <= #[trigger] interval_walk(start, step, end)[k] < end by {
        lemma_interval_end(start, step, end, k);
        assert(k * step >= 0) by (nonlinear_arith)
            requires
                k >= 0,
                step > 0,
        ;
    }
}

impl TimeGrid {
    /// The moments of the grid are moments of the calendar, and its interval says what it
    /// is.
    pub open spec fn wf(&self) -> bool {
        &&& self.start.wf()
        &&& self.end matches Some(e) ==> e.wf()
        &&& lengths_wf(opt_interval(self.interval_seconds))
    }

    pub fn copy(&self) -> (r: Self)
        ensures
            r@ == self@,
            r.start == self.start,
            r.end == self.end,
    {
        TimeGrid {
            cron_schedule: copy_opt_text(&self.cron_schedule),
            interval_seconds: copy_opt_interval(&self.interval_seconds),
            start: self.start,
            end: self.end,
            fmt: self.fmt.clone(),
        }
    }

    /// Where the grid ends: its own end, else the present moment.
    pub fn end_or(&self, now: Moment) -> (r: Moment)
        requires
            self.wf(),
            now.wf(),
        ensures
            r.wf(),
            r.at() == grid_end(self@, now.at()),
    {
        match self.end {
            Some(e) => e,
            None => now,
        }
    }

    /// How many windows start in `[start, end)`.
    fn interval_window_count(&self, step: i128, end: Moment) -> (r: usize)
        requires
            self.wf(),
            end.wf(),
        ensures
            r == holdable(interval_walk(self.start.at(), step as int, end.at())).len(),
    {
        let start: i128 = self.start.total();
        let stop: i128 = end.total();
        if stop <= start || step <= 0 {
            return 0;
        }
        let span: i128 = stop - start - 1;
        let n: i128 = span / step + 1;
        proof {
            assert(span / step <= span) by (nonlinear_arith)
                requires
                    span >= 0,
                    step >= 1,
            ;
            assert(0 <= span / step) by (nonlinear_arith)
                requires
                    span >= 0,
                    step >= 1,
            ;
        }
        if n > usize::MAX as i128 {
            usize::MAX
        } else {
            n as usize
        }
    }

    /// The window starts from number `offset` on, at most `limit` of them, found
    /// by arithmetic.
    fn interval_window(&self, step: i128, end: Moment, offset: usize, limit: usize) -> (r: Vec<
        Moment,
    >)
        requires
            self.wf(),
            end.wf(),
        ensures
            places(r@) == page(
                holdable(interval_walk(self.start.at(), step as int, end.at())),
                offset as int,
                limit as int,
            ),
            forall|i: int| 0 <= i < r@.len() ==> (#[trigger] r@[i]).wf(),
    {
        let n: usize = self.interval_window_count(step, end);
        let mut out: Vec<Moment> = Vec::new();
        let ghost ts = holdable(interval_walk(self.start.at(), step as int, end.at()));
        if offset >= n || limit == 0 {
            proof {
                assert(places(out@) =~= page(ts, offset as int, limit as int));
            }
            return out;
        }
        let stop: usize = if limit < n - offset {
            offset + limit
        } else {
            n
        };
        let start: i128 = self.start.total();
        let mut k: usize = offset;
        while k < stop
            invariant
                self.wf(),
                end.wf(),
                start == self.start.at(),
                ts == holdable(interval_walk(self.start.at(), step as int, end.at())),
                offset <= k <= stop,
                stop <= ts.len(),
                out@.len() == k - offset,
                step > 0,
                forall|i: int| 0 <= i < out@.len() ==> (#[trigger] out@[i]).wf(),
                forall|i: int|
                    0 <= i < out@.len() ==> (#[trigger] out@[i]).at() == ts[offset + i],
            decreases stop - k,
        {
            proof {
                lemma_interval_end(start as int, step as int, end.at(), k as int);
                assert(k * step >= 0) by (nonlinear_arith)
                    requires
                        k >= 0,
                        step > 0,
                ;
            }
            let place: i128 = start + k as i128 * step;
            out.push(Moment::from_total(place));
            k += 1;
        }
        proof {
            assert(places(out@) =~= page(ts, offset as int, limit as int));
        }
        out
    }

    /// The window starts before `end` from number `offset` on, at most `limit` of
    /// them.
    pub fn ticks(&self, end: Moment, offset: usize, limit: usize) -> (r: Result<Vec<Moment>, Fault>)
        requires
            self.wf(),
            end.wf(),
        ensures
            match r {
                Ok(v) => {
                    &&& grid_ticks(self@, end.at()) matches Ok(ts) && places(v@) == page(
                        ts,
                        offset as int,
                        limit as int,
                    )
                    &&& forall|i: int| 0 <= i < v@.len() ==> (#[trigger] v@[i]).wf()
                },
                Err(e) => grid_ticks(self@, end.at()) == Err::<Seq<int>, FaultView>(e@),
            },
    {
        match &self.interval_seconds {
            Some(iv) => Ok(self.interval_window(iv.ns, end, offset, limit)),
            None => match &self.cron_schedule {
                Some(expr) => {
                    let reach: usize = if limit < usize::MAX - offset {
                        offset + limit
                    } else {
                        usize::MAX
                    };
                    match cron_ticks_before(expr.as_str(), self.start, end, reach) {
                        Ok(v) => {
                            let ghost ts = holdable(
                                walk_before(
                                    cron_ticks(expr@, self.start.at())->Ok_0,
                                    end.at(),
                                ),
                            );
                            proof {
                                lemma_walk_before(
                                    cron_ticks(expr@, self.start.at())->Ok_0,
                                    end.at(),
                                );
                                assert(places(v@) =~= ts.take(
                                    at_most(reach as int, ts.len() as int),
                                ));
                            }
                            let mut out: Vec<Moment> = Vec::new();
                            let mut i: usize = offset;
                            while i < v.len()
                                invariant
                                    forall|j: int| 0 <= j < v@.len() ==> (#[trigger] v@[j]).wf(),
                                    forall|j: int| 0 <= j < out@.len() ==> (#[trigger] out@[j]).wf(),
                                    offset <= i,
                                    i <= v@.len() || i == offset,
                                    out@.len() == i - offset,
                                    forall|j: int|
                                        0 <= j < out@.len() ==> #[trigger] out@[j] == v@[offset + j],
                                decreases v@.len() - i,
                            {
                                out.push(v[i]);
                                i += 1;
                            }
                            proof {
                                assert forall|j: int| 0 <= j < out@.len() implies places(out@)[j]
                                    == ts[offset + j] by {
                                    assert(places(v@)[offset + j] == v@[offset + j].at());
                                }
                                assert(places(out@) =~= page(ts, offset as int, limit as int));
                            }
                            Ok(out)
                        },
                        Err(why) => Err(
                            Fault::definition(
                                say4(
                                    "Invalid cron expression '",
                                    expr.as_str(),
                                    "': ",
                                    why.as_str(),
                                ),
                            ),
                        ),
                    }
                },
                None => {
                    let out: Vec<Moment> = Vec::new();
                    proof {
                        assert(places(out@) =~= page(Seq::<int>::empty(), offset as int, limit as int));
                    }
                    Ok(out)
                },
            },
        }
    }

    /// How many windows start before `end`; none where the schedule cannot be
    /// read.
    pub fn count(&self, end: Moment) -> (r: usize)
        requires
            self.wf(),
            end.wf(),
        ensures
            r == grid_count(self@, end.at()),
    {
        match &self.interval_seconds {
            Some(iv) => self.interval_window_count(iv.ns, end),
            None => match self.ticks(end, 0, usize::MAX) {
                Ok(v) => {
                    proof {
                        assert(places(v@).len() == v@.len());
                    }
                    v.len()
                },
                Err(_) => 0,
            },
        }
    }
}

/// Where a grid ends: its own end, else the present moment.
pub open spec fn grid_end(g: GridView, now: int) -> int {
    match g.end {
        Some(e) => e,
        None => now,
    }
}

/// How many windows of a grid start before `end`; none where the schedule cannot
/// be read.
pub open spec fn grid_count(g: GridView, end: int) -> nat {
    match grid_ticks(g, end) {
        Ok(ts) => ts.len(),
        Err(_) => 0,
    }
}

/// The keys of a grid before `end`.
pub open spec fn grid_keys(g: GridView, end: int) -> Result<Seq<Seq<char>>, FaultView> {
    match grid_ticks(g, end) {
        Ok(ts) => format_all(ts, g.fmt),
        Err(e) => Err(e),
    }
}

fn copy_opt_text(s: &Option<String>) -> (r: Option<String>)
    ensures
        opt_text(r) == opt_text(*s),
{
    match s {
        Some(t) => Some(t.clone()),
        None => None,
    }
}

fn copy_opt_interval(s: &Option<Interval>) -> (r: Option<Interval>)
    ensures
        opt_interval(r) == opt_interval(*s),
{
    match s {
        Some(t) => Some(t.copy()),
        None => None,
    }
}

/// Whether two optional texts are the same.
pub fn same_opt_text(a: &Option<String>, b: &Option<String>) -> (r: bool)
    ensures
        r == (opt_text(*a) == opt_text(*b)),
{
    match (a, b) {
        (Some(x), Some(y)) => same_text(x.as_str(), y.as_str()),
        (None, None) => true,
        _ => false,
    }
}

} // verus!
