//! What holds of the window starts of a grid: they ascend, and a schedule finds each of
//! them again near the place that its key reads as.
use vstd::prelude::*;
use crate::errors::FaultView;
use crate::moment::{
    count_before, fires, formatted, lemma_walk_before, min_at, on_second, walk_before, walk_from,
    NANOS, SCHEDULE_END,
};
use crate::partitions::grid::{
    format_all, grid_ticks, holdable, interval_walk, lemma_format_all, lemma_interval_end,
    lemma_interval_walk, GridView,
};
use crate::partitions::rules::{
    find_shown, nearby_end, nearby_start, nearby_ticks, window_valid, NEARBY_NS,
};
use crate::schedule_laws::{
    lemma_later_walk_meets, lemma_spaced_meets, lemma_walk_ascends, lemma_walk_fires, meets, spaced,
    NEARBY_SECONDS,
};

verus! {

/// A grid that goes by a schedule, from a whole second of the calendar on.
pub open spec fn scheduled(g: GridView, end: int) -> bool {
    &&& g.interval is None
    &&& g.cron is Some
    &&& on_second(g.start)
    &&& min_at() <= g.start
    &&& grid_ticks(g, end) is Ok
}

/// The window starts of a grid ascend, and lie in the grid.
pub proof fn lemma_ticks_ascend(g: GridView, end: int)
    requires
        g.interval matches Some(iv) ==> iv.ns > 0,
        grid_ticks(g, end) is Ok,
    ensures
        forall|i: int|
            0 <= i < grid_ticks(g, end)->Ok_0.len() ==> g.start <= #[trigger] grid_ticks(
                g,
                end,
            )->Ok_0[i] < end,
        forall|i: int, j: int|
            0 <= i < j < grid_ticks(g, end)->Ok_0.len() ==> #[trigger] grid_ticks(g, end)->Ok_0[i]
                < #[trigger] grid_ticks(g, end)->Ok_0[j],
{
    let ts = grid_ticks(g, end)->Ok_0;
    match g.interval {
        Some(iv) => {
            let step = iv.ns;
            lemma_interval_walk(g.start, step, end);
            let w = interval_walk(g.start, step, end);
            assert forall|i: int, j: int| 0 <= i < j < ts.len() implies #[trigger] ts[i]
                < #[trigger] ts[j] by {
                assert(w[i] == g.start + i * step && w[j] == g.start + j * step);
                assert(i * step < j * step) by (nonlinear_arith)
                    requires
                        i < j,
                        step > 0,
                ;
            }
            assert forall|i: int| 0 <= i < ts.len() implies g.start <= #[trigger] ts[i] < end by {
                assert(w[i] == ts[i]);
            }
        },
        None => {
            if let Some(expr) = g.cron {
                let w = walk_from(expr, g.start);
                lemma_walk_ascends(expr, g.start);
                lemma_walk_before(w, end);
                assert forall|i: int, j: int| 0 <= i < j < ts.len() implies #[trigger] ts[i]
                    < #[trigger] ts[j] by {
                    assert(w[i] == ts[i] && w[j] == ts[j]);
                }
                assert forall|i: int| 0 <= i < ts.len() implies g.start <= #[trigger] ts[i]
                    < end by {
                    assert(w[i] == ts[i]);
                }
            }
        },
    }
}

/// The window starts before an earlier end are the first of those before a later.
pub proof fn lemma_ticks_prefix(g: GridView, near: int, end: int)
    requires
        g.interval matches Some(iv) ==> iv.ns > 0,
        grid_ticks(g, end) is Ok,
        near <= end,
    ensures
        grid_ticks(g, near) matches Ok(some) && some.is_prefix_of(grid_ticks(g, end)->Ok_0),
{
    match g.interval {
        Some(iv) => {
            let step = iv.ns;
            let a = interval_walk(g.start, step, near);
            let b = interval_walk(g.start, step, end);
            lemma_interval_walk(g.start, step, near);
            if a.len() > 0 {
                let k = a.len() - 1;
                assert(a[k] == g.start + k * step);
                lemma_interval_end(g.start, step, end, k);
            }
            assert(a.len() <= b.len());
            assert forall|i: int| 0 <= i < a.len() implies a[i] == b[i] by {}
            assert(holdable(a).is_prefix_of(holdable(b)));
        },
        None => {
            if let Some(expr) = g.cron {
                let w = walk_from(expr, g.start);
                let a = walk_before(w, near);
                let b = walk_before(w, end);
                lemma_walk_before(w, near);
                lemma_walk_before(w, end);
                if a.len() > b.len() {
                    assert(w[b.len() as int] >= end);
                    assert(w[b.len() as int] < near);
                }
                assert(holdable(a).is_prefix_of(holdable(b)));
            }
        },
    }
}

/// Whether a grid starts a window at a place, of which it has one before `end`: a number
/// of intervals past its start, or at a second that its schedule names.
pub open spec fn is_tick(g: GridView, end: int, t: int) -> bool {
    &&& g.start <= t < end
    &&& match g.interval {
        Some(iv) => (t - g.start) % iv.ns == 0,
        None => on_second(t) && fires(g.cron->0, t),
    }
}

/// Whether a grid starts its windows wherever its cadence has it: it has an interval, or
/// its schedule names no two seconds in a row and ends before the year 5000.
pub open spec fn regular(g: GridView, end: int) -> bool {
    match g.interval {
        Some(iv) => iv.ns > 0,
        None => scheduled(g, end) && end <= SCHEDULE_END && spaced(g.cron->0, g.start, end),
    }
}

/// The window starts of a grid are the places at which its cadence has one.
pub proof fn lemma_ticks_are(g: GridView, end: int, t: int)
    requires
        regular(g, end),
        grid_ticks(g, end) is Ok,
        grid_ticks(g, end)->Ok_0.len() < usize::MAX,
    ensures
        grid_ticks(g, end)->Ok_0.contains(t) <==> is_tick(g, end, t),
{
    let ts = grid_ticks(g, end)->Ok_0;
    lemma_ticks_ascend(g, end);
    match g.interval {
        Some(iv) => {
            let step = iv.ns;
            let w = interval_walk(g.start, step, end);
            assert(ts =~= w);
            if ts.contains(t) {
                let k = choose|k: int| 0 <= k < ts.len() && ts[k] == t;
                assert(w[k] == g.start + k * step);
                vstd::arithmetic::div_mod::lemma_mod_multiples_basic(k, step);
            }
            if is_tick(g, end, t) {
                let k = (t - g.start) / step;
                assert(t - g.start == k * step && k >= 0) by (nonlinear_arith)
                    requires
                        (t - g.start) % step == 0,
                        t - g.start >= 0,
                        step > 0,
                        k == (t - g.start) / step,
                ;
                lemma_interval_end(g.start, step, end, k);
                assert(w[k] == t);
                assert(ts[k] == t);
            }
        },
        None => {
            let expr = g.cron->0;
            let w = walk_from(expr, g.start);
            lemma_walk_before(w, end);
            assert(ts =~= walk_before(w, end));
            if ts.contains(t) {
                let k = choose|k: int| 0 <= k < ts.len() && ts[k] == t;
                assert(w[k] == t);
                lemma_walk_fires(expr, g.start);
            }
            if is_tick(g, end, t) {
                assert(spaced(expr, g.start, t + 1));
                lemma_spaced_meets(expr, g.start, t);
                lemma_met_before(expr, g.start, end, t);
            }
        },
    }
}

/// A walk meets the places that lie before its end, and holds them.
proof fn lemma_met_before(expr: Seq<char>, from: int, end: int, t: int)
    requires
        t < end,
        meets(expr, from, t),
    ensures
        walk_before(walk_from(expr, from), end).contains(t),
        (t - from) / (2 * NANOS) < usize::MAX ==> holdable(
            walk_before(walk_from(expr, from), end),
        ).contains(t),
{
    let w = walk_from(expr, from);
    let b = walk_before(w, end);
    lemma_walk_ascends(expr, from);
    lemma_walk_before(w, end);
    let j = choose|j: int| 0 <= j < w.len() && w[j] == t;
    let c = count_before(w, end) as int;
    if c <= j {
        assert(w[c] >= end);
        if c < j {
            assert(w[c] + 2 * NANOS <= w[j]);
        }
    }
    assert(b[j] == t);
    lemma_place_bound(expr, from, j);
    if (t - from) / (2 * NANOS) < usize::MAX {
        assert(j < usize::MAX);
        assert(holdable(b)[j] == t);
    }
}

/// Each place of a walk lies two seconds at least past the one before, and so bounds its
/// number.
proof fn lemma_place_bound(expr: Seq<char>, from: int, j: int)
    requires
        0 <= j < walk_from(expr, from).len(),
    ensures
        j <= (walk_from(expr, from)[j] - from) / (2 * NANOS),
    decreases j,
{
    lemma_walk_ascends(expr, from);
    if j > 0 {
        lemma_place_bound(expr, from, j - 1);
        assert(walk_from(expr, from)[j - 1] + 2 * NANOS <= walk_from(expr, from)[j]);
    }
}

/// A search for a text among places finds it where one of them shows it.
pub proof fn lemma_find_shown_some(ts: Seq<int>, fmt: Seq<char>, key: Seq<char>, i: int, from: int)
    requires
        0 <= from <= i < ts.len(),
        formatted(ts[i], fmt) == Some(key),
    ensures
        find_shown(ts, fmt, key, from) matches Ok(Some(j)) && from <= j <= i && formatted(
            ts[j],
            fmt,
        ) == Some(key),
    decreases i - from,
{
    if from < i && formatted(ts[from], fmt) != Some(key) {
        lemma_find_shown_some(ts, fmt, key, i, from + 1);
    }
}

/// A search for a text among places finds a place that shows it, or there is none.
pub proof fn lemma_find_shown(ts: Seq<int>, fmt: Seq<char>, key: Seq<char>, from: int)
    requires
        0 <= from,
        ts.len() > 0 ==> formatted(ts[0], fmt) is Some,
    ensures
        match find_shown(ts, fmt, key, from) {
            Ok(Some(j)) => from <= j < ts.len() && formatted(ts[j], fmt) == Some(key),
            Ok(None) => forall|i: int|
                from <= i < ts.len() ==> formatted(#[trigger] ts[i], fmt) != Some(key),
            Err(_) => false,
        },
    decreases ts.len() - from,
{
    if from < ts.len() && formatted(ts[from], fmt) != Some(key) {
        lemma_find_shown(ts, fmt, key, from + 1);
    }
}

/// The key of a window start of a schedule is found again near the place that it reads
/// as.
pub proof fn lemma_scheduled_key_valid(g: GridView, end: int, i: int, key: Seq<char>)
    requires
        scheduled(g, end),
        0 <= i < grid_ticks(g, end)->Ok_0.len(),
        formatted(grid_ticks(g, end)->Ok_0[i], g.fmt) == Some(key),
    ensures
        window_valid(g, end, key, Ok::<int, Seq<char>>(grid_ticks(g, end)->Ok_0[i])) == Ok::<
            bool,
            FaultView,
        >(true),
{
    let expr = g.cron->0;
    let ts = grid_ticks(g, end)->Ok_0;
    let t = ts[i];
    let w = walk_from(expr, g.start);
    lemma_ticks_ascend(g, end);
    lemma_walk_before(w, end);
    assert(w[i] == t);
    assert(w.contains(t));
    lemma_walk_fires(expr, g.start);
    let f = nearby_start(t, g.start);
    let to = nearby_end(t, end);
    if f != g.start {
        assert(f == t - NEARBY_NS);
        assert(NEARBY_NS == NEARBY_SECONDS * NANOS);
        assert(on_second(f));
        lemma_later_walk_meets(expr, g.start, f);
    }
    assert(meets(expr, f, t));
    assert(t < to);
    assert(t - f <= NEARBY_NS);
    assert((t - f) / (2 * NANOS) <= 46_800) by {
        assert(2 * NANOS == 2_000_000_000int);
        assert((t - f) / 2_000_000_000int <= 46_800);
    }
    lemma_met_before(expr, f, to, t);
    let near = nearby_ticks(expr, t, g.start, end)->Ok_0;
    assert(near.contains(t));
    let j = choose|j: int| 0 <= j < near.len() && near[j] == t;
    lemma_find_shown_some(near, g.fmt, key, j, 0);
}

/// What a schedule without two seconds in a row shows near the place that a text reads
/// as is one of the window starts of the grid.
pub proof fn lemma_scheduled_key_listed(
    g: GridView,
    end: int,
    key: Seq<char>,
    reading: Result<int, Seq<char>>,
)
    requires
        scheduled(g, end),
        end <= SCHEDULE_END,
        grid_ticks(g, end)->Ok_0.len() < usize::MAX,
        format_all(grid_ticks(g, end)->Ok_0, g.fmt) is Ok,
        spaced(g.cron->0, g.start, end),
        reading matches Ok(t) ==> on_second(nearby_start(t, g.start)),
    ensures
        match window_valid(g, end, key, reading) {
            Ok(true) => format_all(grid_ticks(g, end)->Ok_0, g.fmt)->Ok_0.contains(key),
            Ok(false) => true,
            Err(_) => false,
        },
{
    let expr = g.cron->0;
    let ts = grid_ticks(g, end)->Ok_0;
    if let Ok(t) = reading {
        if g.start <= t && t < end {
            let f = nearby_start(t, g.start);
            let to = nearby_end(t, end);
            let near = nearby_ticks(expr, t, g.start, end)->Ok_0;
            let w = walk_from(expr, f);
            lemma_walk_before(w, to);
            lemma_walk_ascends(expr, f);
            lemma_walk_fires(expr, f);
            assert forall|j: int| 0 <= j < near.len() implies ts.contains(#[trigger] near[j]) by {
                let u = near[j];
                assert(w[j] == u);
                assert(u < to <= end);
                assert(f <= w[j]);
                assert(fires(expr, u));
                assert(spaced(expr, g.start, u + 1));
                lemma_spaced_meets(expr, g.start, u);
                lemma_met_before(expr, g.start, end, u);
                assert(ts =~= walk_before(walk_from(expr, g.start), end)) by {
                    lemma_walk_before(walk_from(expr, g.start), end);
                }
            }
            lemma_format_all(ts, g.fmt);
            if near.len() > 0 {
                assert(ts.contains(near[0]));
                let x = choose|x: int| 0 <= x < ts.len() && ts[x] == near[0];
                assert(formatted(ts[x], g.fmt) is Some);
            }
            lemma_find_shown(near, g.fmt, key, 0);
            if let Ok(Some(j)) = find_shown(near, g.fmt, key, 0) {
                assert(ts.contains(near[j]));
                let x = choose|x: int| 0 <= x < ts.len() && ts[x] == near[j];
                assert(formatted(ts[x], g.fmt) == Some(key));
                assert(format_all(ts, g.fmt)->Ok_0[x] == key);
            }
        }
    }
}

} // verus!
