//! The rules that a partition scheme must meet, its constructors and its printed
//! form.
use vstd::prelude::*;
use vstd::string::*;
use crate::errors::{Fault, FaultKind, FaultView};
use crate::moment::{
    format_moment, formatted, max_at, moment_form, moment_text, places, stepped, Moment, NANOS,
};
use crate::partitions::definition::{
    def_view, def_wf, dims_of, lemma_dim_decreases, lemma_dims_of, DefView, PartitionsDefinition,
};
use crate::partitions::grid::{
    bad_format, grid_ticks, lengths_wf, page, GridView, Interval, TimeGrid,
};
use crate::partitions::key_set::{first_occurrences, OrderedKeySet};
use crate::partitions::meet::{dim_names, names_of_dims};
use crate::partitions::readings::Readings;
use crate::text::{
    first_wanted, has_text, join_texts, joined, quoted, quoted_list, quoted_text, reserved_char,
    reserved_chars, say3, say5, say7, texts,
};

verus! {

/// The first fault of a list of checks.
pub open spec fn first_fault(v: Seq<Option<FaultView>>) -> Option<FaultView>
    decreases v.len(),
{
    if v.len() == 0 {
        None
    } else {
        match first_fault(v.drop_last()) {
            Some(f) => Some(f),
            None => v.last(),
        }
    }
}

/// A fault among the first checks is the first fault.
pub proof fn lemma_first_fault_prefix(v: Seq<Option<FaultView>>, n: int)
    requires
        0 <= n <= v.len(),
        first_fault(v.take(n)) is Some,
    ensures
        first_fault(v) == first_fault(v.take(n)),
    decreases v.len(),
{
    if n < v.len() {
        assert(v.drop_last().take(n) =~= v.take(n));
        lemma_first_fault_prefix(v.drop_last(), n);
    } else {
        assert(v.take(n) =~= v);
    }
}

/// A list of checks has no fault exactly when none of them has.
pub proof fn lemma_first_fault_none(v: Seq<Option<FaultView>>)
    ensures
        first_fault(v) is None <==> forall|i: int| 0 <= i < v.len() ==> (#[trigger] v[i]) is None,
    decreases v.len(),
{
    if v.len() > 0 {
        let w = v.drop_last();
        lemma_first_fault_none(w);
        if first_fault(v) is None {
            assert forall|i: int| 0 <= i < v.len() implies (#[trigger] v[i]) is None by {
                if i < w.len() {
                    assert(w[i] is None);
                }
            }
        }
        if forall|i: int| 0 <= i < v.len() ==> (#[trigger] v[i]) is None {
            assert forall|i: int| 0 <= i < w.len() implies (#[trigger] w[i]) is None by {
                assert(v[i] is None);
            }
            assert(v[v.len() - 1] is None);
        }
    }
}

/// A fault of the definition class.
pub open spec fn definition_fault(message: Seq<char>) -> FaultView {
    (FaultKind::Definition, message)
}

/// What is wrong with a static key.
pub open spec fn key_fault(k: Seq<char>) -> Option<FaultView> {
    if k.len() == 0 {
        Some(definition_fault("static partition keys must not be empty"@))
    } else {
        match first_wanted(k, reserved_chars()) {
            Some(ch) => Some(
                definition_fault(
                    "partition key '"@ + k + "' contains reserved character '"@ + seq![ch]
                        + "' (used by the canonical display form)"@,
                ),
            ),
            None => None,
        }
    }
}

/// What is wrong with each of a list of static keys.
pub open spec fn key_faults(keys: Seq<Seq<char>>) -> Seq<Option<FaultView>> {
    keys.map_values(|k: Seq<char>| key_fault(k))
}

/// Four years, in nanoseconds.
pub const HORIZON_NS: i128 = 126_230_400_000_000_000;

/// How many window starts of a grid are tried at most.
pub const MAX_TICKS: usize = 1024;

/// Where the trial of a grid ends.
pub open spec fn probe_end(g: GridView) -> int {
    let horizon = match stepped(g.start, HORIZON_NS as int) {
        Some(h) => h,
        None => max_at(),
    };
    match g.end {
        Some(e) => if horizon < e {
            horizon
        } else {
            e
        },
        None => horizon,
    }
}

/// The window starts by which the format of a grid is tried: those of the first
/// four years, or the first two where these hold fewer.
pub open spec fn probe_ticks(g: GridView) -> Result<Seq<int>, FaultView> {
    match grid_ticks(g, probe_end(g)) {
        Err(e) => Err(e),
        Ok(ts) => {
            let near = page(ts, 0, MAX_TICKS as int);
            if near.len() >= 2 {
                Ok(near)
            } else {
                match grid_ticks(
                    g,
                    match g.end {
                        Some(e) => e,
                        None => max_at(),
                    },
                ) {
                    Err(e) => Err(e),
                    Ok(far) => Ok(page(far, 0, 2)),
                }
            }
        },
    }
}

/// What keeps the format from standing for a window start: the key cannot be
/// shown, holds a reserved character, or does not read back as the window start.
pub open spec fn tick_fault(t: int, fmt: Seq<char>, readings: Readings) -> Option<FaultView> {
    match formatted(t, fmt) {
        None => Some(bad_format(fmt)),
        Some(key) => match first_wanted(key, reserved_chars()) {
            Some(ch) => Some(
                definition_fault(
                    "fmt '"@ + fmt + "' produces keys containing reserved character '"@
                        + seq![ch] + "' (used by the canonical display form): '"@ + key + "'"@,
                ),
            ),
            None => match readings.of(key, fmt) {
                Ok(p) => if p == t {
                    None
                } else {
                    Some(
                        definition_fault(
                            "fmt '"@ + fmt
                                + "' cannot represent the partition grid: window start "@
                                + moment_form(t) + " formats to '"@ + key
                                + "', which parses back to "@ + moment_form(p)
                                + "; use a format at least as fine as the grid"@,
                        ),
                    )
                },
                Err(why) => Some(
                    definition_fault(
                        "fmt '"@ + fmt + "' cannot represent the partition grid: window start "@
                            + moment_form(t) + " formats to '"@ + key
                            + "', which does not parse back: "@ + why,
                    ),
                ),
            },
        },
    }
}

/// What is wrong with each of a list of window starts.
pub open spec fn tick_faults(ts: Seq<int>, fmt: Seq<char>, readings: Readings) -> Seq<
    Option<FaultView>,
> {
    ts.map_values(|t: int| tick_fault(t, fmt, readings))
}

/// What is wrong with a time grid.
pub open spec fn grid_fault(g: GridView, readings: Readings) -> Option<FaultView> {
    if g.cron is None && g.interval is None {
        Some(
            definition_fault(
                "time_window requires either cron_schedule or interval_seconds"@,
            ),
        )
    } else if g.cron is Some && g.interval is Some {
        Some(
            definition_fault(
                "time_window accepts cron_schedule or interval_seconds, not both"@,
            ),
        )
    } else if g.interval matches Some(iv) && (!iv.finite || iv.ns <= 0) {
        Some(
            definition_fault(
                "interval_seconds must be positive and at least 1 nanosecond, got "@
                    + g.interval->0.text,
            ),
        )
    } else if g.cron is Some && g.start % (NANOS as int) != 0 {
        Some(
            definition_fault(
                "cron-gridded time windows require a start on a whole second, got "@
                    + moment_form(g.start),
            ),
        )
    } else {
        match probe_ticks(g) {
            Err(e) => Some(e),
            Ok(ts) => first_fault(tick_faults(ts, g.fmt, readings)),
        }
    }
}

/// What is wrong with a name at its place in a list of names: an earlier name is
/// the same.
pub open spec fn repeat_fault(names: Seq<Seq<char>>, i: int) -> Option<FaultView> {
    if names.take(i).contains(names[i]) {
        Some(
            definition_fault(
                "Multi partitions: duplicate dimension name '"@ + names[i] + "'"@,
            ),
        )
    } else {
        None
    }
}

/// The repetitions in a list of names.
pub open spec fn repeat_faults(names: Seq<Seq<char>>) -> Seq<Option<FaultView>> {
    Seq::new(names.len(), |i: int| repeat_fault(names, i))
}

/// What is wrong with the place of a dimension in a scheme: it is itself of
/// several dimensions, or its name cannot be used.
pub open spec fn dim_place_fault(d: (Seq<char>, DefView)) -> Option<FaultView> {
    if d.1 is Multi {
        Some(definition_fault("Multi partitions cannot contain nested Multi dimensions"@))
    } else if d.0.len() == 0 {
        Some(definition_fault("Multi dimension names cannot be empty"@))
    } else {
        match first_wanted(d.0, reserved_chars()) {
            Some(ch) => Some(
                definition_fault(
                    "dimension name '"@ + d.0 + "' contains reserved character '"@ + seq![ch]
                        + "' (used by the canonical display form)"@,
                ),
            ),
            None => None,
        }
    }
}

/// What is wrong with a scheme.
pub open spec fn def_fault(d: DefView, readings: Readings) -> Option<FaultView>
    decreases d,
{
    match d {
        DefView::Static(keys) => if keys.len() == 0 {
            Some(definition_fault("Static partitions must have at least one key"@))
        } else {
            first_fault(key_faults(keys))
        },
        DefView::TimeWindow(g) => grid_fault(g, readings),
        DefView::Multi(dims) => if dims.len() == 0 {
            Some(definition_fault("Multi partitions must have at least one dimension"@))
        } else {
            match first_fault(repeat_faults(dim_names(dims))) {
                Some(f) => Some(f),
                None => dims_fault(dims, readings),
            }
        },
        DefView::Dynamic(name) => if name.len() == 0 {
            Some(definition_fault("Dynamic partition definition name cannot be empty"@))
        } else {
            None
        },
    }
}

/// What is wrong with the first faulty dimension of a list.
pub open spec fn dims_fault(dims: Seq<(Seq<char>, DefView)>, readings: Readings) -> Option<
    FaultView,
>
    decreases dims,
{
    if dims.len() == 0 {
        None
    } else {
        match dims_fault(dims.drop_last(), readings) {
            Some(f) => Some(f),
            None => match dim_place_fault(dims.last()) {
                Some(f) => Some(f),
                None => def_fault(dims.last().1, readings),
            },
        }
    }
}

proof fn lemma_dims_fault_prefix(dims: Seq<(Seq<char>, DefView)>, readings: Readings, n: int)
    requires
        0 <= n <= dims.len(),
        dims_fault(dims.take(n), readings) is Some,
    ensures
        dims_fault(dims, readings) == dims_fault(dims.take(n), readings),
    decreases dims.len(),
{
    if n < dims.len() {
        assert(dims.drop_last().take(n) =~= dims.take(n));
        lemma_dims_fault_prefix(dims.drop_last(), readings, n);
    } else {
        assert(dims.take(n) =~= dims);
    }
}

/// Whether a result says what a check found.
pub open spec fn says_fault(r: Result<(), Fault>, spec: Option<FaultView>) -> bool {
    match r {
        Ok(()) => spec is None,
        Err(e) => spec == Some(e@),
    }
}

/// The reserved character that a text holds, as a text.
fn reserved_mark(s: &str) -> (r: Option<&'static str>)
    ensures
        match r {
            Some(t) => first_wanted(s@, reserved_chars()) is Some && t@ == seq![
                first_wanted(s@, reserved_chars())->0,
            ],
            None => first_wanted(s@, reserved_chars()) is None,
        },
{
    proof {
        reveal_strlit("|");
        reveal_strlit(",");
        reveal_strlit("=");
        assert("|"@ =~= seq!['|']);
        assert(","@ =~= seq![',']);
        assert("="@ =~= seq!['=']);
        reveal_with_fuel(first_wanted, 4);
        assert(reserved_chars().drop_first() =~= seq![',', '=']);
        assert(seq![',', '='].drop_first() =~= seq!['=']);
        assert(seq!['='].drop_first() =~= Seq::<char>::empty());
    }
    match reserved_char(s) {
        Some(c) => {
            if c == '|' {
                Some("|")
            } else if c == ',' {
                Some(",")
            } else {
                Some("=")
            }
        },
        None => None,
    }
}

fn check_key(k: &str) -> (r: Result<(), Fault>)
    ensures
        says_fault(r, key_fault(k@)),
{
    if k.is_empty() {
        return Err(Fault::definition("static partition keys must not be empty".to_owned()));
    }
    match reserved_mark(k) {
        Some(mark) => Err(
            Fault::definition(
                say5(
                    "partition key '",
                    k,
                    "' contains reserved character '",
                    mark,
                    "' (used by the canonical display form)",
                ),
            ),
        ),
        None => Ok(()),
    }
}

fn check_tick(t: Moment, fmt: &str, readings: &Readings) -> (r: Result<(), Fault>)
    requires
        t.wf(),
        readings.wf(),
    ensures
        says_fault(r, tick_fault(t.at(), fmt@, *readings)),
{
    let key = match format_moment(t, fmt) {
        Some(k) => k,
        None => {
            return Err(Fault::definition(say3("format '", fmt, "' cannot be used")));
        },
    };
    if let Some(mark) = reserved_mark(key.as_str()) {
        return Err(
            Fault::definition(
                say7(
                    "fmt '",
                    fmt,
                    "' produces keys containing reserved character '",
                    mark,
                    "' (used by the canonical display form): '",
                    key.as_str(),
                    "'",
                ),
            ),
        );
    }
    match readings.read(key.as_str(), fmt) {
        Ok(p) => {
            if p.total() == t.total() {
                Ok(())
            } else {
                let mut s = say7(
                    "fmt '",
                    fmt,
                    "' cannot represent the partition grid: window start ",
                    moment_text(t).as_str(),
                    " formats to '",
                    key.as_str(),
                    "', which parses back to ",
                );
                s.append(moment_text(p).as_str());
                s.append("; use a format at least as fine as the grid");
                Err(Fault::definition(s))
            }
        },
        Err(why) => {
            let mut s = say7(
                "fmt '",
                fmt,
                "' cannot represent the partition grid: window start ",
                moment_text(t).as_str(),
                " formats to '",
                key.as_str(),
                "', which does not parse back: ",
            );
            s.append(why.as_str());
            Err(Fault::definition(s))
        },
    }
}

impl TimeGrid {
    /// The window starts by which the format of the grid is tried.
    fn probe(&self) -> (r: Result<Vec<Moment>, Fault>)
        requires
            self.wf(),
        ensures
            match r {
                Ok(v) => probe_ticks(self@) == Ok::<Seq<int>, FaultView>(places(v@)) && forall|
                    i: int,
                |
                    0 <= i < v@.len() ==> (#[trigger] v@[i]).wf(),
                Err(e) => probe_ticks(self@) == Err::<Seq<int>, FaultView>(e@),
            },
    {
        let horizon = match self.start.step(HORIZON_NS) {
            Some(h) => h,
            None => Moment::last(),
        };
        let bound = match self.end {
            Some(e) => e.earlier(horizon),
            None => horizon,
        };
        let near = self.ticks(bound, 0, MAX_TICKS)?;
        proof {
            assert(places(near@).len() == near@.len());
        }
        if near.len() >= 2 {
            return Ok(near);
        }
        let end = match self.end {
            Some(e) => e,
            None => Moment::last(),
        };
        self.ticks(end, 0, 2)
    }

    /// The keys whose readings decide whether the grid can be used.
    pub fn probe_keys(&self) -> (r: Result<Vec<String>, Fault>)
        requires
            self.wf(),
        ensures
            match r {
                Ok(ks) => probe_ticks(self@) matches Ok(ts)
                    && crate::partitions::grid::format_all(ts, self.fmt@) == Ok::<
                    Seq<Seq<char>>,
                    FaultView,
                >(texts(ks@)),
                Err(e) => match probe_ticks(self@) {
                    Ok(ts) => crate::partitions::grid::format_all(ts, self.fmt@) == Err::<
                        Seq<Seq<char>>,
                        FaultView,
                    >(e@),
                    Err(f) => f == e@,
                },
            },
    {
        let ticks = self.probe()?;
        crate::partitions::grid::format_moments(&ticks, self.fmt.as_str())
    }

    /// Every rule that a time grid must meet.
    fn check(&self, readings: &Readings) -> (r: Result<(), Fault>)
        requires
            self.wf(),
            readings.wf(),
        ensures
            says_fault(r, grid_fault(self@, *readings)),
    {
        if self.cron_schedule.is_none() && self.interval_seconds.is_none() {
            return Err(
                Fault::definition(
                    "time_window requires either cron_schedule or interval_seconds".to_owned(),
                ),
            );
        }
        if self.cron_schedule.is_some() && self.interval_seconds.is_some() {
            return Err(
                Fault::definition(
                    "time_window accepts cron_schedule or interval_seconds, not both".to_owned(),
                ),
            );
        }
        if let Some(iv) = &self.interval_seconds {
            if !iv.finite || iv.ns <= 0 {
                let mut s =
                    "interval_seconds must be positive and at least 1 nanosecond, got ".to_owned();
                s.append(iv.text.as_str());
                return Err(Fault::definition(s));
            }
        }
        if self.cron_schedule.is_some() && self.start.nanos != 0 {
            let mut s =
                "cron-gridded time windows require a start on a whole second, got ".to_owned();
            s.append(moment_text(self.start).as_str());
            return Err(Fault::definition(s));
        }
        let ticks = self.probe()?;
        let ghost ts = places(ticks@);
        let ghost faults = tick_faults(ts, self.fmt@, *readings);
        let mut i: usize = 0;
        proof {
            assert(faults.take(0) =~= Seq::empty());
        }
        while i < ticks.len()
            invariant
                readings.wf(),
                ts == places(ticks@),
                faults == tick_faults(ts, self.fmt@, *readings),
                forall|j: int| 0 <= j < ticks@.len() ==> (#[trigger] ticks@[j]).wf(),
                i <= ticks@.len(),
                first_fault(faults.take(i as int)) is None,
                grid_fault(self@, *readings) == first_fault(faults),
            decreases ticks@.len() - i,
        {
            proof {
                assert(ts[i as int] == ticks@[i as int].at());
                assert(faults.take(i + 1).drop_last() =~= faults.take(i as int));
                assert(faults.take(i + 1).last() == faults[i as int]);
            }
            let r = check_tick(ticks[i], self.fmt.as_str(), readings);
            if r.is_err() {
                proof {
                    lemma_first_fault_prefix(faults, i + 1);
                }
                return r;
            }
            i += 1;
        }
        proof {
            assert(faults.take(i as int) =~= faults);
        }
        Ok(())
    }
}

fn check_dim_place(name: &str, def: &PartitionsDefinition) -> (r: Result<(), Fault>)
    ensures
        says_fault(r, dim_place_fault((name@, def@))),
{
    if let PartitionsDefinition::Multi { .. } = def {
        return Err(
            Fault::definition("Multi partitions cannot contain nested Multi dimensions".to_owned()),
        );
    }
    if name.is_empty() {
        return Err(Fault::definition("Multi dimension names cannot be empty".to_owned()));
    }
    match reserved_mark(name) {
        Some(mark) => Err(
            Fault::definition(
                say5(
                    "dimension name '",
                    name,
                    "' contains reserved character '",
                    mark,
                    "' (used by the canonical display form)",
                ),
            ),
        ),
        None => Ok(()),
    }
}

fn check_repeats(names: &Vec<String>) -> (r: Result<(), Fault>)
    ensures
        says_fault(r, first_fault(repeat_faults(texts(names@)))),
{
    let ghost ns = texts(names@);
    let ghost faults = repeat_faults(ns);
    let mut seen: Vec<String> = Vec::new();
    let mut i: usize = 0;
    proof {
        assert(faults.take(0) =~= Seq::empty());
        assert(texts(seen@) =~= ns.take(0));
    }
    while i < names.len()
        invariant
            ns == texts(names@),
            faults == repeat_faults(ns),
            i <= names@.len(),
            texts(seen@) == ns.take(i as int),
            first_fault(faults.take(i as int)) is None,
        decreases names@.len() - i,
    {
        proof {
            assert(ns[i as int] == names@[i as int]@);
            assert(faults.take(i + 1).drop_last() =~= faults.take(i as int));
            assert(faults.take(i + 1).last() == faults[i as int]);
        }
        if has_text(&seen, names[i].as_str()) {
            proof {
                lemma_first_fault_prefix(faults, i + 1);
            }
            return Err(
                Fault::definition(
                    say3(
                        "Multi partitions: duplicate dimension name '",
                        names[i].as_str(),
                        "'",
                    ),
                ),
            );
        }
        let ghost prev = texts(seen@);
        seen.push(names[i].clone());
        proof {
            assert(texts(seen@) =~= prev.push(ns[i as int]));
            assert(ns.take(i + 1) =~= ns.take(i as int).push(ns[i as int]));
        }
        i += 1;
    }
    proof {
        assert(faults.take(i as int) =~= faults);
    }
    Ok(())
}

/// The printed form of the cadence of a grid.
pub open spec fn schedule_repr(g: GridView) -> Seq<char> {
    match g.cron {
        Some(c) => "cron="@ + quoted(c),
        None => match g.interval {
            Some(i) => "interval="@ + i.text + "s"@,
            None => ""@,
        },
    }
}

/// The printed form of the end of a grid.
pub open spec fn end_repr(end: Option<int>) -> Seq<char> {
    match end {
        Some(e) => ", end="@ + moment_form(e),
        None => Seq::empty(),
    }
}

/// The printed form of a scheme.
pub open spec fn def_repr(d: DefView) -> Seq<char>
    decreases d,
{
    match d {
        DefView::Static(keys) => "PartitionsDefinition.static_("@ + quoted_list(keys) + ")"@,
        DefView::TimeWindow(g) => "PartitionsDefinition.time_window("@ + schedule_repr(g)
            + ", start="@ + moment_form(g.start) + ", fmt="@ + quoted(g.fmt) + end_repr(g.end)
            + ")"@,
        DefView::Multi(dims) => "PartitionsDefinition.multi({"@ + joined(
            dims_def_repr(dims),
            ", "@,
        ) + "})"@,
        DefView::Dynamic(name) => "PartitionsDefinition.dynamic("@ + quoted(name) + ")"@,
    }
}

/// The printed form of each dimension of a list.
pub open spec fn dims_def_repr(dims: Seq<(Seq<char>, DefView)>) -> Seq<Seq<char>>
    decreases dims,
{
    if dims.len() == 0 {
        Seq::empty()
    } else {
        dims_def_repr(dims.drop_last()).push(
            quoted(dims.last().0) + ": "@ + def_repr(dims.last().1),
        )
    }
}

impl TimeGrid {
    /// A grid with a window for each day.
    pub fn daily(start: Moment, end: Option<Moment>, fmt: Option<String>) -> (r: Self)
        requires
            start.wf(),
            end matches Some(e) ==> e.wf(),
        ensures
            r.wf(),
            r@ == (GridView {
                cron: Some("0 0 * * *"@),
                interval: None,
                start: start.at(),
                end: crate::partitions::grid::opt_at(end),
                fmt: fmt_or(fmt, "%Y-%m-%d"@),
            }),
    {
        TimeGrid::windows(
            start,
            Some("0 0 * * *".to_owned()),
            None,
            end,
            match fmt {
                Some(f) => Some(f),
                None => Some("%Y-%m-%d".to_owned()),
            },
        )
    }

    /// A grid with a window for each hour.
    pub fn hourly(start: Moment, end: Option<Moment>, fmt: Option<String>) -> (r: Self)
        requires
            start.wf(),
            end matches Some(e) ==> e.wf(),
        ensures
            r.wf(),
            r@ == (GridView {
                cron: Some("0 * * * *"@),
                interval: None,
                start: start.at(),
                end: crate::partitions::grid::opt_at(end),
                fmt: fmt_or(fmt, "%Y-%m-%dT%H:00"@),
            }),
    {
        TimeGrid::windows(
            start,
            Some("0 * * * *".to_owned()),
            None,
            end,
            match fmt {
                Some(f) => Some(f),
                None => Some("%Y-%m-%dT%H:00".to_owned()),
            },
        )
    }

    /// A grid with a window for each step of a schedule or an interval.
    pub fn windows(
        start: Moment,
        cron_schedule: Option<String>,
        interval_seconds: Option<Interval>,
        end: Option<Moment>,
        fmt: Option<String>,
    ) -> (r: Self)
        requires
            lengths_wf(crate::partitions::grid::opt_interval(interval_seconds)),
            start.wf(),
            end matches Some(e) ==> e.wf(),
        ensures
            r.wf(),
            r@ == (GridView {
                cron: crate::partitions::grid::opt_text(cron_schedule),
                interval: crate::partitions::grid::opt_interval(interval_seconds),
                start: start.at(),
                end: crate::partitions::grid::opt_at(end),
                fmt: fmt_or(fmt, "%Y-%m-%dT%H:%M:%S"@),
            }),
    {
        let fmt = match fmt {
            Some(f) => f,
            None => "%Y-%m-%dT%H:%M:%S".to_owned(),
        };
        TimeGrid { cron_schedule, interval_seconds, start, end, fmt }
    }
}

impl PartitionsDefinition {
    /// Full structural validation: every rule that the constructors enforce.
    pub fn validate_definition(&self, readings: &Readings) -> (r: Result<(), Fault>)
        requires
            self.wf(),
            readings.wf(),
        ensures
            says_fault(r, def_fault(self@, *readings)),
        decreases self,
    {
        match self {
            PartitionsDefinition::Static { keys } => {
                let ks = keys.iter();
                let ghost faults = key_faults(keys@);
                proof {
                    assert(texts(ks@).len() == ks@.len());
                    assert(faults.take(0) =~= Seq::empty());
                }
                if ks.len() == 0 {
                    return Err(
                        Fault::definition("Static partitions must have at least one key".to_owned()),
                    );
                }
                let mut i: usize = 0;
                while i < ks.len()
                    invariant
                        texts(ks@) == keys@,
                        self@ == DefView::Static(keys@),
                        keys@.len() > 0,
                        faults == key_faults(keys@),
                        i <= ks@.len(),
                        first_fault(faults.take(i as int)) is None,
                    decreases ks@.len() - i,
                {
                    proof {
                        assert(keys@[i as int] == ks@[i as int]@);
                        assert(faults.take(i + 1).drop_last() =~= faults.take(i as int));
                        assert(faults.take(i + 1).last() == faults[i as int]);
                    }
                    let r = check_key(ks[i].as_str());
                    if r.is_err() {
                        proof {
                            lemma_first_fault_prefix(faults, i + 1);
                        }
                        return r;
                    }
                    i += 1;
                }
                proof {
                    assert(faults.take(i as int) =~= faults);
                }
                Ok(())
            },
            PartitionsDefinition::TimeWindow { grid } => grid.check(readings),
            PartitionsDefinition::Multi { dimensions } => {
                let ghost dims = dims_of(dimensions@);
                proof {
                    lemma_dims_of(dimensions@);
                    assert(dims.take(0) =~= Seq::empty());
                }
                if dimensions.len() == 0 {
                    return Err(
                        Fault::definition(
                            "Multi partitions must have at least one dimension".to_owned(),
                        ),
                    );
                }
                let r = check_repeats(&names_of_dims(dimensions));
                if r.is_err() {
                    return r;
                }
                let mut i: usize = 0;
                while i < dimensions.len()
                    invariant
                        readings.wf(),
                        self == (PartitionsDefinition::Multi { dimensions: *dimensions }),
                        dims == dims_of(dimensions@),
                        dims.len() == dimensions@.len(),
                        def_fault(self@, *readings) == dims_fault(dims, *readings),
                        forall|j: int|
                            0 <= j < dimensions@.len() ==> #[trigger] dims[j] == (
                                dimensions@[j].0@,
                                def_view(dimensions@[j].1),
                            ),
                        forall|j: int|
                            0 <= j < dimensions@.len() ==> def_wf((#[trigger] dimensions@[j]).1),
                        i <= dimensions@.len(),
                        dims_fault(dims.take(i as int), *readings) is None,
                    decreases dimensions@.len() - i,
                {
                    proof {
                        lemma_dim_decreases(*self, i as int);
                        assert(dims.take(i + 1).drop_last() =~= dims.take(i as int));
                        assert(dims.take(i + 1).last() == dims[i as int]);
                    }
                    let r = check_dim_place(dimensions[i].0.as_str(), &dimensions[i].1);
                    if r.is_err() {
                        proof {
                            lemma_dims_fault_prefix(dims, *readings, i + 1);
                        }
                        return r;
                    }
                    let r = dimensions[i].1.validate_definition(readings);
                    if r.is_err() {
                        proof {
                            lemma_dims_fault_prefix(dims, *readings, i + 1);
                        }
                        return r;
                    }
                    i += 1;
                }
                proof {
                    assert(dims.take(i as int) =~= dims);
                }
                Ok(())
            },
            PartitionsDefinition::Dynamic { name } => {
                if name.as_str().is_empty() {
                    Err(
                        Fault::definition(
                            "Dynamic partition definition name cannot be empty".to_owned(),
                        ),
                    )
                } else {
                    Ok(())
                }
            },
        }
    }

    /// The definition itself, where it meets every rule.
    fn checked(self, readings: &Readings) -> (r: Result<Self, Fault>)
        requires
            self.wf(),
            readings.wf(),
        ensures
            built(r, self@, *readings),
    {
        match self.validate_definition(readings) {
            Ok(()) => Ok(self),
            Err(e) => Err(e),
        }
    }

    /// A scheme of fixed keys.
    pub fn static_(keys: Vec<String>, readings: &Readings) -> (r: Result<Self, Fault>)
        requires
            readings.wf(),
        ensures
            built(r, DefView::Static(first_occurrences(texts(keys@))), *readings),
    {
        (PartitionsDefinition::Static { keys: OrderedKeySet::new(keys) }).checked(readings)
    }

    /// One partition for each day.
    pub fn daily(
        start: Moment,
        end: Option<Moment>,
        fmt: Option<String>,
        readings: &Readings,
    ) -> (r: Result<Self, Fault>)
        requires
            start.wf(),
            end matches Some(e) ==> e.wf(),
            readings.wf(),
        ensures
            built(
                r,
                DefView::TimeWindow(
                    GridView {
                        cron: Some("0 0 * * *"@),
                        interval: None,
                        start: start.at(),
                        end: crate::partitions::grid::opt_at(end),
                        fmt: fmt_or(fmt, "%Y-%m-%d"@),
                    },
                ),
                *readings,
            ),
    {
        (PartitionsDefinition::TimeWindow { grid: TimeGrid::daily(start, end, fmt) }).checked(readings)
    }

    /// One partition for each hour.
    pub fn hourly(
        start: Moment,
        end: Option<Moment>,
        fmt: Option<String>,
        readings: &Readings,
    ) -> (r: Result<Self, Fault>)
        requires
            start.wf(),
            end matches Some(e) ==> e.wf(),
            readings.wf(),
        ensures
            built(
                r,
                DefView::TimeWindow(
                    GridView {
                        cron: Some("0 * * * *"@),
                        interval: None,
                        start: start.at(),
                        end: crate::partitions::grid::opt_at(end),
                        fmt: fmt_or(fmt, "%Y-%m-%dT%H:00"@),
                    },
                ),
                *readings,
            ),
    {
        (PartitionsDefinition::TimeWindow { grid: TimeGrid::hourly(start, end, fmt) }).checked(readings)
    }

    /// One partition for each window of a schedule or an interval.
    pub fn time_window(
        start: Moment,
        cron_schedule: Option<String>,
        interval_seconds: Option<Interval>,
        end: Option<Moment>,
        fmt: Option<String>,
        readings: &Readings,
    ) -> (r: Result<Self, Fault>)
        requires
            lengths_wf(crate::partitions::grid::opt_interval(interval_seconds)),
            start.wf(),
            end matches Some(e) ==> e.wf(),
            readings.wf(),
        ensures
            built(
                r,
                DefView::TimeWindow(
                    GridView {
                        cron: crate::partitions::grid::opt_text(cron_schedule),
                        interval: crate::partitions::grid::opt_interval(interval_seconds),
                        start: start.at(),
                        end: crate::partitions::grid::opt_at(end),
                        fmt: fmt_or(fmt, "%Y-%m-%dT%H:%M:%S"@),
                    },
                ),
                *readings,
            ),
    {
        (PartitionsDefinition::TimeWindow {
            grid: TimeGrid::windows(start, cron_schedule, interval_seconds, end, fmt),
        }).checked(readings)
    }

    /// A scheme of several dimensions.
    pub fn multi(dimensions: Vec<(String, PartitionsDefinition)>, readings: &Readings) -> (r:
        Result<Self, Fault>)
        requires
            forall|i: int| 0 <= i < dimensions@.len() ==> (#[trigger] dimensions@[i]).1.wf(),
            readings.wf(),
        ensures
            built(r, DefView::Multi(dims_of(dimensions@)), *readings),
    {
        proof {
            lemma_dims_of(dimensions@);
        }
        (PartitionsDefinition::Multi { dimensions }).checked(readings)
    }

    /// A scheme whose keys storage keeps under a name.
    pub fn dynamic(name: String, readings: &Readings) -> (r: Result<Self, Fault>)
        requires
            readings.wf(),
        ensures
            built(r, DefView::Dynamic(name@), *readings),
    {
        (PartitionsDefinition::Dynamic { name }).checked(readings)
    }

    /// The printed form of the definition.
    pub fn repr(&self) -> (r: String)
        requires
            self.wf(),
        ensures
            r@ == def_repr(self@),
        decreases self,
    {
        match self {
            PartitionsDefinition::Static { keys } => say3(
                "PartitionsDefinition.static_(",
                keys.debug_text().as_str(),
                ")",
            ),
            PartitionsDefinition::TimeWindow { grid } => {
                let schedule = match &grid.cron_schedule {
                    Some(c) => {
                        let mut s = "cron=".to_owned();
                        s.append(quoted_text(c.as_str()).as_str());
                        s
                    },
                    None => match &grid.interval_seconds {
                        Some(i) => say3("interval=", i.text.as_str(), "s"),
                        None => "".to_owned(),
                    },
                };
                let end = match grid.end {
                    Some(e) => {
                        let mut s = ", end=".to_owned();
                        s.append(moment_text(e).as_str());
                        s
                    },
                    None => String::new(),
                };
                let mut s = say7(
                    "PartitionsDefinition.time_window(",
                    schedule.as_str(),
                    ", start=",
                    moment_text(grid.start).as_str(),
                    ", fmt=",
                    quoted_text(grid.fmt.as_str()).as_str(),
                    end.as_str(),
                );
                s.append(")");
                s
            },
            PartitionsDefinition::Multi { dimensions } => {
                let ghost dims = dims_of(dimensions@);
                let mut out: Vec<String> = Vec::new();
                let mut i: usize = 0;
                proof {
                    lemma_dims_of(dimensions@);
                    assert(dims.take(0) =~= Seq::empty());
                    assert(texts(out@) =~= Seq::empty());
                }
                while i < dimensions.len()
                    invariant
                        self == (PartitionsDefinition::Multi { dimensions: *dimensions }),
                        dims == dims_of(dimensions@),
                        dims.len() == dimensions@.len(),
                        forall|j: int|
                            0 <= j < dimensions@.len() ==> #[trigger] dims[j] == (
                                dimensions@[j].0@,
                                def_view(dimensions@[j].1),
                            ),
                        forall|j: int|
                            0 <= j < dimensions@.len() ==> def_wf((#[trigger] dimensions@[j]).1),
                        i <= dimensions@.len(),
                        texts(out@) == dims_def_repr(dims.take(i as int)),
                    decreases dimensions@.len() - i,
                {
                    proof {
                        lemma_dim_decreases(*self, i as int);
                        assert(dims.take(i + 1).drop_last() =~= dims.take(i as int));
                        assert(dims.take(i + 1).last() == dims[i as int]);
                    }
                    let mut s = quoted_text(dimensions[i].0.as_str());
                    s.append(": ");
                    s.append(dimensions[i].1.repr().as_str());
                    let ghost prev = texts(out@);
                    let ghost e = s@;
                    out.push(s);
                    proof {
                        assert(texts(out@) =~= prev.push(e));
                    }
                    i += 1;
                }
                proof {
                    assert(dims.take(i as int) =~= dims);
                }
                say3("PartitionsDefinition.multi({", join_texts(&out, ", ").as_str(), "})")
            },
            PartitionsDefinition::Dynamic { name } => say3(
                "PartitionsDefinition.dynamic(",
                quoted_text(name.as_str()).as_str(),
                ")",
            ),
        }
    }
}

/// A format, or the one that stands in for it.
pub open spec fn fmt_or(fmt: Option<String>, other: Seq<char>) -> Seq<char> {
    match fmt {
        Some(f) => f@,
        None => other,
    }
}

/// A constructor yields its scheme where the scheme has no fault, else the fault.
pub open spec fn built(
    r: Result<PartitionsDefinition, Fault>,
    d: DefView,
    readings: Readings,
) -> bool {
    match r {
        Ok(def) => def.wf() && def@ == d && def_fault(d, readings) is None,
        Err(e) => def_fault(d, readings) == Some(e@),
    }
}

} // verus!
