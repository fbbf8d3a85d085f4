//! When the keys of one time grid are keys of another.
use vstd::prelude::*;
use vstd::string::*;
use crate::errors::{fault_text, Fault, FaultView};
use crate::moment::{
    at_most, count_before, cron_ticks, cron_ticks_before, format_moment, formatted, max_at,
    moment_form, moment_text, places, stepped, walk_before, Moment, NANOS,
};
use crate::partitions::factory::{HORIZON_NS, MAX_TICKS};
use crate::partitions::grid::{bad_format, bad_schedule, grid_ticks, page, GridView, TimeGrid};
use crate::text::{same_text, say4, say5, say7};

verus! {

/// Whether two places lie a whole number of steps apart.
pub open spec fn whole_steps(a: int, b: int, step: int) -> bool {
    (a - b) % step == 0
}

fn steps_apart(a: Moment, b: Moment, step: i128) -> (r: bool)
    requires
        a.wf(),
        b.wf(),
        step > 0,
    ensures
        r == whole_steps(a.at(), b.at(), step as int),
{
    let x: i128 = a.total();
    let y: i128 = b.total();
    if x >= y {
        (x - y) % step == 0
    } else {
        let d: i128 = y - x;
        proof {
            let n = step as int;
            let m = d as int;
            if m % n == 0 {
                vstd::arithmetic::div_mod::lemma_fundamental_div_mod(m, n);
                assert(-m == n * (-(m / n))) by (nonlinear_arith)
                    requires
                        m == n * (m / n),
                ;
                vstd::arithmetic::div_mod::lemma_mod_multiples_basic(-(m / n), n);
                assert((-(m / n)) * n == n * (-(m / n))) by (nonlinear_arith);
            }
            if (-m) % n == 0 {
                vstd::arithmetic::div_mod::lemma_fundamental_div_mod(-m, n);
                assert(m == n * (-((-m) / n))) by (nonlinear_arith)
                    requires
                        -m == n * ((-m) / n),
                ;
                vstd::arithmetic::div_mod::lemma_mod_multiples_basic(-((-m) / n), n);
                assert((-((-m) / n)) * n == n * (-((-m) / n))) by (nonlinear_arith);
            }
        }
        d % step == 0
    }
}

/// Whether a schedule names a place: the place is a whole second and the first
/// that the schedule names from it on.
pub open spec fn cron_has(expr: Seq<char>, t: int) -> Result<bool, FaultView> {
    if t % (NANOS as int) != 0 {
        Ok(false)
    } else {
        match cron_ticks(expr, t) {
            Err(why) => Err(bad_schedule(expr, why)),
            Ok(ts) => {
                let near = walk_before(
                    ts,
                    match stepped(t, NANOS as int) {
                        Some(e) => e,
                        None => max_at(),
                    },
                );
                Ok(near.len() > 0 && near[0] == t)
            },
        }
    }
}

/// Whether a schedule names a moment.
pub fn cron_grid_contains(cron_expr: &str, t: Moment) -> (r: Result<bool, Fault>)
    requires
        t.wf(),
    ensures
        match r {
            Ok(b) => cron_has(cron_expr@, t.at()) == Ok::<bool, FaultView>(b),
            Err(e) => cron_has(cron_expr@, t.at()) == Err::<bool, FaultView>(e@),
        },
{
    proof {
        let s = t.secs as int;
        let n = t.nanos as int;
        vstd::arithmetic::div_mod::lemma_mod_multiples_vanish(s, n, NANOS as int);
        assert(NANOS as int * s + n == s * (NANOS as int) + n) by (nonlinear_arith);
        vstd::arithmetic::div_mod::lemma_small_mod(n as nat, NANOS as nat);
    }
    if t.nanos != 0 {
        return Ok(false);
    }
    let end = match t.step(NANOS) {
        Some(e) => e,
        None => Moment::last(),
    };
    match cron_ticks_before(cron_expr, t, end, 1) {
        Ok(v) => {
            proof {
                let ts = cron_ticks(cron_expr@, t.at())->Ok_0;
                crate::moment::lemma_walk_before(ts, end.at());
                let w = walk_before(ts, end.at());
                let c = count_before(ts, end.at()) as int;
                assert(w.len() == c);
                assert(places(v@) == w.take(at_most(1, c)));
                assert(places(v@).len() == v@.len());
                if v@.len() > 0 {
                    assert(places(v@)[0] == v@[0].at());
                    assert(w[0] == v@[0].at());
                }
            }
            Ok(v.len() > 0 && v[0].total() == t.total())
        },
        Err(why) => Err(
            Fault::definition(
                say4("Invalid cron expression '", cron_expr, "': ", why.as_str()),
            ),
        ),
    }
}

/// Whether a place is a window start of a grid, whatever its range.
pub open spec fn on_grid(g: GridView, t: int) -> Result<bool, FaultView> {
    match g.cron {
        Some(expr) => cron_has(expr, t),
        None => match g.interval {
            Some(iv) => Ok(iv.ns > 0 && whole_steps(t, g.start, iv.ns)),
            None => Ok(false),
        },
    }
}

/// The first of a list of places that is no window start of a grid.
pub open spec fn first_off_grid(ts: Seq<int>, g: GridView) -> Result<Option<int>, FaultView>
    decreases ts.len(),
{
    if ts.len() == 0 {
        Ok(None)
    } else {
        match first_off_grid(ts.drop_last(), g) {
            Ok(None) => match on_grid(g, ts.last()) {
                Err(e) => Err(e),
                Ok(true) => Ok(None),
                Ok(false) => Ok(Some(ts.last())),
            },
            other => other,
        }
    }
}

proof fn lemma_first_off_prefix(ts: Seq<int>, g: GridView, n: int)
    requires
        0 <= n <= ts.len(),
        first_off_grid(ts.take(n), g) != Ok::<Option<int>, FaultView>(None),
    ensures
        first_off_grid(ts, g) == first_off_grid(ts.take(n), g),
    decreases ts.len(),
{
    if n < ts.len() {
        assert(ts.drop_last().take(n) =~= ts.take(n));
        lemma_first_off_prefix(ts.drop_last(), g, n);
    } else {
        assert(ts.take(n) =~= ts);
    }
}

/// A grid with its schedule alone, where it has one.
pub open spec fn schedule_first(g: GridView) -> GridView {
    if g.cron is Some {
        GridView { interval: None, ..g }
    } else {
        g
    }
}

/// Where the trial of a grid against another ends, whatever the grid's own end.
pub open spec fn trial_end(g: GridView) -> int {
    match stepped(g.start, HORIZON_NS as int) {
        Some(h) => h,
        None => max_at(),
    }
}

/// The window starts of a grid that are tried against another grid.
pub open spec fn trial_ticks(g: GridView) -> Result<Seq<int>, FaultView> {
    match grid_ticks(schedule_first(g), trial_end(g)) {
        Ok(ts) => Ok(page(ts, 0, MAX_TICKS as int)),
        Err(e) => Err(e),
    }
}

/// How a grid reads in messages.
pub open spec fn grid_form(g: GridView) -> Seq<char> {
    match g.cron {
        Some(expr) => "cron '"@ + expr + "'"@,
        None => match g.interval {
            Some(iv) => "every "@ + iv.text + "s from "@ + moment_form(g.start),
            None => "with no schedule"@,
        },
    }
}

/// Why a mapping cannot resolve the keys of one grid on another: the formats
/// differ, or a window start of the first is none of the second.
pub open spec fn compat_fault(mapping: Seq<char>, down: GridView, up: GridView) -> Option<
    Seq<char>,
> {
    if down.fmt != up.fmt {
        Some(
            mapping + " mapping requires matching key formats: downstream fmt '"@ + down.fmt
                + "' != upstream fmt '"@ + up.fmt + "'"@,
        )
    } else if down.cron is None && up.cron is None && down.interval is Some
        && up.interval is Some {
        let di = down.interval->0;
        let ui = up.interval->0;
        if ui.ns <= 0 || di.ns <= 0 || di.ns % ui.ns != 0 {
            Some(
                mapping
                    + " mapping requires the downstream grid to be a subgrid of the upstream grid: downstream interval "@
                    + di.text + "s is not a multiple of upstream interval "@ + ui.text + "s"@,
            )
        } else if !whole_steps(down.start, up.start, ui.ns) {
            Some(
                mapping
                    + " mapping requires the downstream grid to be a subgrid of the upstream grid: downstream start "@
                    + moment_form(down.start) + " is not aligned to the upstream grid (start "@
                    + moment_form(up.start) + ", interval "@ + ui.text + "s)"@,
            )
        } else {
            None
        }
    } else {
        match trial_ticks(down) {
            Err(e) => Some(fault_text(e)),
            Ok(ts) => match first_off_grid(ts, up) {
                Err(e) => Some(fault_text(e)),
                Ok(None) => None,
                Ok(Some(t)) => match formatted(t, down.fmt) {
                    None => Some(fault_text(bad_format(down.fmt))),
                    Some(key) => Some(
                        mapping
                            + " mapping requires the downstream grid to be a subgrid of the upstream grid: downstream window start "@
                            + moment_form(t) + " (key '"@ + key
                            + "') is not on the upstream grid ("@ + grid_form(up)
                            + "), so that key would never exist upstream"@,
                    ),
                },
            },
        }
    }
}

impl TimeGrid {
    /// Whether a moment is a window start of the grid, whatever its range.
    fn has_start(&self, t: Moment) -> (r: Result<bool, Fault>)
        requires
            self.wf(),
            t.wf(),
        ensures
            match r {
                Ok(b) => on_grid(self@, t.at()) == Ok::<bool, FaultView>(b),
                Err(e) => on_grid(self@, t.at()) == Err::<bool, FaultView>(e@),
            },
    {
        match &self.cron_schedule {
            Some(expr) => cron_grid_contains(expr.as_str(), t),
            None => match &self.interval_seconds {
                Some(iv) => Ok(iv.ns > 0 && steps_apart(t, self.start, iv.ns)),
                None => Ok(false),
            },
        }
    }

    /// The window starts of the grid that are tried against another grid.
    fn trial(&self) -> (r: Result<Vec<Moment>, Fault>)
        requires
            self.wf(),
        ensures
            match r {
                Ok(v) => {
                    &&& trial_ticks(self@) == Ok::<Seq<int>, FaultView>(places(v@))
                    &&& forall|i: int| 0 <= i < v@.len() ==> (#[trigger] v@[i]).wf()
                },
                Err(e) => trial_ticks(self@) == Err::<Seq<int>, FaultView>(e@),
            },
    {
        let end = match self.start.step(HORIZON_NS) {
            Some(e) => e,
            None => Moment::last(),
        };
        let mut g = self.copy();
        if g.cron_schedule.is_some() {
            g.interval_seconds = None;
        }
        g.ticks(end, 0, MAX_TICKS)
    }

    fn form(&self) -> (r: String)
        requires
            self.wf(),
        ensures
            r@ == grid_form(self@),
    {
        match &self.cron_schedule {
            Some(expr) => crate::text::say3("cron '", expr.as_str(), "'"),
            None => match &self.interval_seconds {
                Some(iv) => say4(
                    "every ",
                    iv.text.as_str(),
                    "s from ",
                    moment_text(self.start).as_str(),
                ),
                None => "with no schedule".to_owned(),
            },
        }
    }

    /// Require this grid to be a subgrid of the upstream one (same fmt; identical
    /// cron, or interval multiple with aligned starts). Ranges may differ; range
    /// edges are a per-key concern.
    pub fn resolves_on(&self, mapping: &str, up: &TimeGrid) -> (r: Result<(), String>)
        requires
            self.wf(),
            up.wf(),
        ensures
            match r {
                Ok(_) => compat_fault(mapping@, self@, up@) is None,
                Err(e) => compat_fault(mapping@, self@, up@) == Some(e@),
            },
    {
        if !same_text(self.fmt.as_str(), up.fmt.as_str()) {
            let mut s = say5(
                mapping,
                " mapping requires matching key formats: downstream fmt '",
                self.fmt.as_str(),
                "' != upstream fmt '",
                up.fmt.as_str(),
            );
            s.append("'");
            return Err(s);
        }
        if self.cron_schedule.is_none() && up.cron_schedule.is_none() {
            match (&self.interval_seconds, &up.interval_seconds) {
                (Some(di), Some(ui)) => {
                    if ui.ns <= 0 || di.ns <= 0 || di.ns % ui.ns != 0 {
                        let mut s = say5(
                            mapping,
                            " mapping requires the downstream grid to be a subgrid of the upstream grid: downstream interval ",
                            di.text.as_str(),
                            "s is not a multiple of upstream interval ",
                            ui.text.as_str(),
                        );
                        s.append("s");
                        return Err(s);
                    }
                    if !steps_apart(self.start, up.start, ui.ns) {
                        let mut s = say7(
                            mapping,
                            " mapping requires the downstream grid to be a subgrid of the upstream grid: downstream start ",
                            moment_text(self.start).as_str(),
                            " is not aligned to the upstream grid (start ",
                            moment_text(up.start).as_str(),
                            ", interval ",
                            ui.text.as_str(),
                        );
                        s.append("s)");
                        return Err(s);
                    }
                    return Ok(());
                },
                _ => {},
            }
        }
        let ticks = match self.trial() {
            Ok(v) => v,
            Err(e) => {
                return Err(e.text());
            },
        };
        let ghost ts = places(ticks@);
        let mut i: usize = 0;
        proof {
            assert(ts.take(0) =~= Seq::empty());
        }
        while i < ticks.len()
            invariant
                self.wf(),
                up.wf(),
                ts == places(ticks@),
                forall|j: int| 0 <= j < ticks@.len() ==> (#[trigger] ticks@[j]).wf(),
                i <= ticks@.len(),
                self@.fmt == up@.fmt,
                !(self@.cron is None && up@.cron is None && self@.interval is Some
                    && up@.interval is Some),
                trial_ticks(self@) == Ok::<Seq<int>, FaultView>(ts),
                first_off_grid(ts.take(i as int), up@) == Ok::<Option<int>, FaultView>(None),
            decreases ticks@.len() - i,
        {
            proof {
                assert(ts.take(i + 1).drop_last() =~= ts.take(i as int));
                assert(ts.take(i + 1).last() == ticks@[i as int].at());
            }
            match up.has_start(ticks[i]) {
                Err(e) => {
                    proof {
                        lemma_first_off_prefix(ts, up@, i + 1);
                    }
                    return Err(e.text());
                },
                Ok(false) => {
                    proof {
                        lemma_first_off_prefix(ts, up@, i + 1);
                    }
                    return Err(
                        match format_moment(ticks[i], self.fmt.as_str()) {
                            None => Fault::definition(
                                crate::text::say3(
                                    "format '",
                                    self.fmt.as_str(),
                                    "' cannot be used",
                                ),
                            ).text(),
                            Some(key) => {
                                let mut s = say7(
                                    mapping,
                                    " mapping requires the downstream grid to be a subgrid of the upstream grid: downstream window start ",
                                    moment_text(ticks[i]).as_str(),
                                    " (key '",
                                    key.as_str(),
                                    "') is not on the upstream grid (",
                                    up.form().as_str(),
                                );
                                s.append("), so that key would never exist upstream");
                                s
                            },
                        },
                    );
                },
                Ok(true) => {},
            }
            i += 1;
        }
        proof {
            assert(ts.take(i as int) =~= ts);
        }
        Ok(())
    }
}

} // verus!
