//! What the keys of a scheme are, where a key stands, which window it names, and when two
//! schemes are the same.
use vstd::prelude::*;
use crate::errors::{FaultKind, FaultView};
use crate::moment::{
    cron_next, cron_ticks, formatted, lemma_walk_before, max_at, min_at, stepped, NANOS,
};
use crate::partitions::context::context_window;
use crate::partitions::definition::{
    all_keys, capped, dimension_of, find_dim, key_count, same_variants, variant_of, DefView,
};
use crate::partitions::facts::{shifted_key, Shifts};
use crate::partitions::grid::{
    grid_count, grid_end, grid_keys, grid_ticks, lemma_format_all, page, same_length, same_lengths,
    GridView, IntervalView,
};
use crate::partitions::grid_compat::{first_off_grid, on_grid, schedule_first, trial_ticks};
use crate::partitions::identity::{same_dims, same_grids, same_schemes};
use crate::partitions::key::KeyView;
use crate::partitions::readings::Readings;
use crate::partitions::rules::{key_index, time_window_of};

verus! {

/// A page of a list: from its offset on, at most so many items as its limit, and no more
/// than there are.
pub proof fn lemma_page<T>(s: Seq<T>, offset: int, limit: int)
    requires
        0 <= offset,
        0 <= limit,
    ensures
        forall|i: int|
            0 <= i < page(s, offset, limit).len() ==> #[trigger] page(s, offset, limit)[i]
                == s[offset + i],
        page(s, offset, limit).len() <= limit,
        offset >= s.len() ==> page(s, offset, limit).len() == 0,
        offset < s.len() && offset + limit <= s.len() ==> page(s, offset, limit).len() == limit,
        offset < s.len() && offset + limit > s.len() ==> page(s, offset, limit).len() == s.len()
            - offset,
{
}

/// A moment is moved by as much as is asked, unless that leads out of the calendar.
pub proof fn lemma_stepped(at: int, step: int)
    ensures
        stepped(at, step) is Some <==> min_at() <= at + step <= max_at(),
        stepped(at, step) is Some ==> stepped(at, step)->0 == at + step,
{
}

/// The keys of a scheme. Fixed keys are listed as they stand, windows as their starts show;
/// a dynamic scheme, and one without a cadence, cannot be listed.
pub proof fn lemma_keys_listed(d: DefView, now: int)
    ensures
        ({
            let r = all_keys(d, now);
            &&& d matches DefView::Static(keys) ==> r is Ok && r->Ok_0.len() == keys.len()
                && forall|i: int|
                0 <= i < keys.len() ==> #[trigger] r->Ok_0[i] == KeyView::Single(seq![keys[i]])
            &&& d matches DefView::TimeWindow(g) ==> {
                let ts = grid_ticks(g, grid_end(g, now));
                &&& g.interval is None && g.cron is None ==> r is Err
                &&& r is Ok ==> ts is Ok && r->Ok_0.len() == ts->Ok_0.len() && forall|i: int|
                    0 <= i < ts->Ok_0.len() ==> formatted(ts->Ok_0[i], g.fmt) is Some && (
                    #[trigger] r->Ok_0[i]) == KeyView::Single(
                        seq![formatted(ts->Ok_0[i], g.fmt)->0],
                    )
                &&& (g.interval is Some || g.cron is Some) && ts is Ok && (forall|i: int|
                    0 <= i < ts->Ok_0.len() ==> formatted(
                        #[trigger] ts->Ok_0[i],
                        g.fmt,
                    ) is Some) ==> r is Ok
            }
            &&& d is Dynamic ==> r is Err && r->Err_0.0 == FaultKind::NotImplemented
        }),
{
    if let DefView::TimeWindow(g) = d {
        if let Ok(ts) = grid_ticks(g, grid_end(g, now)) {
            lemma_format_all(ts, g.fmt);
            if let Ok(r) = all_keys(d, now) {
                let ks = grid_keys(g, grid_end(g, now))->Ok_0;
                assert forall|i: int| 0 <= i < ts.len() implies formatted(ts[i], g.fmt) is Some && (
                #[trigger] r[i]) == KeyView::Single(seq![formatted(ts[i], g.fmt)->0]) by {
                    assert(formatted(ts[i], g.fmt) == Some(ks[i]));
                }
            }
        }
    }
}

/// The present ends a grid that has no end of its own.
pub proof fn lemma_grid_ends(g: GridView, now: int)
    ensures
        g.end is Some ==> grid_end(g, now) == g.end->0,
        g.end is None ==> grid_end(g, now) == now,
        grid_ticks(g, grid_end(g, now)) is Ok ==> grid_count(g, grid_end(g, now)) == grid_ticks(
            g,
            grid_end(g, now),
        )->Ok_0.len(),
        key_count(DefView::TimeWindow(g), now) == grid_count(g, grid_end(g, now)),
{
}

/// A cap ends every grid of a scheme no later than it, and changes nothing else.
pub proof fn lemma_capped(g: GridView, cap: int)
    ensures
        capped(DefView::TimeWindow(g), cap) == DefView::TimeWindow(
            GridView {
                end: Some(
                    if g.end is Some && g.end->0 <= cap {
                        g.end->0
                    } else {
                        cap
                    },
                ),
                ..g
            },
        ),
        forall|d: DefView|
            d is Static || d is Dynamic ==> #[trigger] capped(d, cap) == d,
{
}

/// Where a key stands. A fixed key stands where it first occurs; a window of an interval by
/// the number of steps from the start, where the key reads as such a window before the end.
pub proof fn lemma_index(d: DefView, now: int, key: Seq<char>, readings: Readings)
    ensures
        ({
            let r = key_index(d, now, key, readings);
            &&& d matches DefView::Static(keys) ==> {
                &&& r is Ok
                &&& r->Ok_0 is Some <==> keys.contains(key)
                &&& r->Ok_0 matches Some(i) ==> 0 <= i < keys.len() && keys[i] == key && forall|
                    j: int,
                |
                    0 <= j < i ==> #[trigger] keys[j] != key
            }
            &&& d matches DefView::TimeWindow(g) ==> g.interval matches Some(iv) ==> iv.ns > 0 ==> {
                &&& r is Ok
                &&& r->Ok_0 matches Some(i) ==> 0 <= i && readings.of(key, g.fmt) is Ok
                    && readings.of(key, g.fmt)->Ok_0 == g.start + i * iv.ns && readings.of(
                    key,
                    g.fmt,
                )->Ok_0 < grid_end(g, now)
                &&& readings.of(key, g.fmt) is Err ==> r->Ok_0 is None
                &&& forall|i: int|
                    0 <= i <= usize::MAX && readings.of(key, g.fmt) == Ok::<int, Seq<char>>(
                        #[trigger] (g.start + i * iv.ns),
                    ) && g.start + i * iv.ns < grid_end(g, now) ==> r->Ok_0 == Some(i)
            }
            &&& d is Multi || d is Dynamic ==> r == Ok::<Option<int>, FaultView>(None)
        }),
{
    if let DefView::Static(keys) = d {
        keys.index_of_first_ensures(key);
    }
    if let DefView::TimeWindow(g) = d {
        if let Some(iv) = g.interval {
            if iv.ns > 0 {
                assert forall|i: int|
                    0 <= i <= usize::MAX && readings.of(key, g.fmt) == Ok::<int, Seq<char>>(
                        #[trigger] (g.start + i * iv.ns),
                    ) && g.start + i * iv.ns < grid_end(g, now) implies key_index(
                    d,
                    now,
                    key,
                    readings,
                )->Ok_0 == Some(i) by {
                    let step = iv.ns;
                    vstd::arithmetic::div_mod::lemma_mod_multiples_basic(i, step);
                    vstd::arithmetic::div_mod::lemma_div_multiples_vanish(i, step);
                    assert(i * step >= 0) by (nonlinear_arith)
                        requires
                            i >= 0,
                            step > 0,
                    ;
                    assert(step * i == i * step) by (nonlinear_arith);
                }
                if let Ok(t) = readings.of(key, g.fmt) {
                    if (t - g.start) % iv.ns == 0 && g.start <= t {
                        let step = iv.ns;
                        let i = (t - g.start) / step;
                        assert(t - g.start == i * step && i >= 0) by (nonlinear_arith)
                            requires
                                (t - g.start) % step == 0,
                                t - g.start >= 0,
                                step > 0,
                                i == (t - g.start) / step,
                        ;
                    }
                }
            }
        }
    }
}

/// The window of a key begins at the moment it reads as. On an interval it is as long as
/// the interval; on a schedule it ends at the next occurrence. A key that does not read is
/// a fault, and only a time scheme has windows.
pub proof fn lemma_window_of(d: DefView, key: Seq<char>, readings: Readings)
    ensures
        ({
            let r = time_window_of(d, key, readings);
            &&& !(d is TimeWindow) ==> r == Ok::<Option<(int, int)>, FaultView>(None)
            &&& d matches DefView::TimeWindow(g) ==> {
                let t = readings.of(key, g.fmt);
                &&& t is Err ==> r is Err
                &&& r matches Ok(Some(w)) ==> t is Ok && w.0 == t->Ok_0
                &&& r matches Ok(Some(w)) ==> g.interval matches Some(iv) ==> w.1 == w.0 + iv.ns
                &&& t is Ok && g.interval is Some && min_at() <= t->Ok_0 + g.interval->0.ns
                    <= max_at() ==> r is Ok && r->Ok_0 is Some
                &&& r matches Ok(Some(w)) ==> g.interval is None ==> g.cron is Some && cron_next(
                    g.cron->0,
                    w.0,
                ) == Ok::<int, (bool, Seq<char>)>(w.1)
                &&& t is Ok && g.interval is None && g.cron is Some && cron_next(
                    g.cron->0,
                    t->Ok_0,
                ) is Ok ==> r is Ok && r->Ok_0 is Some
            }
        }),
{
}

/// Only a context of one single key of one text has a window, that of the text.
pub proof fn lemma_context_window(keys: Seq<KeyView>, d: DefView, readings: Readings)
    ensures
        ({
            let r = context_window(keys, d, readings);
            let alone = keys.len() == 1 && keys[0] is Single && keys[0]->Single_0.len() == 1;
            &&& alone ==> r == time_window_of(d, keys[0]->Single_0[0], readings)
            &&& !alone ==> r == Ok::<Option<(int, int)>, FaultView>(None)
        }),
{
}

/// The dimension of a name is the first that has it; only a scheme of several dimensions
/// has any.
pub proof fn lemma_dimension(d: DefView, name: Seq<char>)
    ensures
        !(d is Multi) ==> dimension_of(d, name) is None,
        d matches DefView::Multi(dims) ==> match dimension_of(d, name) {
            Some(x) => exists|i: int|
                0 <= i < dims.len() && (#[trigger] dims[i]).0 == name && dims[i].1 == x && forall|
                    j: int,
                |
                    0 <= j < i ==> (#[trigger] dims[j]).0 != name,
            None => forall|i: int| 0 <= i < dims.len() ==> (#[trigger] dims[i]).0 != name,
        },
{
    if let DefView::Multi(dims) = d {
        lemma_found(dims, name);
    }
}

proof fn lemma_found(dims: Seq<(Seq<char>, DefView)>, name: Seq<char>)
    ensures
        match find_dim(dims, name) {
            Some(x) => exists|i: int|
                0 <= i < dims.len() && (#[trigger] dims[i]).0 == name && dims[i].1 == x && forall|
                    j: int,
                |
                    0 <= j < i ==> (#[trigger] dims[j]).0 != name,
            None => forall|i: int| 0 <= i < dims.len() ==> (#[trigger] dims[i]).0 != name,
        },
    decreases dims.len(),
{
    if dims.len() > 0 && dims[0].0 != name {
        let w = dims.drop_first();
        lemma_found(w, name);
        match find_dim(w, name) {
            Some(x) => {
                let i = choose|i: int|
                    0 <= i < w.len() && (#[trigger] w[i]).0 == name && w[i].1 == x && forall|
                        j: int,
                    |
                        0 <= j < i ==> (#[trigger] w[j]).0 != name;
                assert(dims[i + 1] == w[i]);
                assert forall|j: int| 0 <= j < i + 1 implies (#[trigger] dims[j]).0 != name by {
                    if j > 0 {
                        assert(w[j - 1] == dims[j]);
                    }
                }
            },
            None => {
                assert forall|j: int| 0 <= j < dims.len() implies (#[trigger] dims[j]).0
                    != name by {
                    if j > 0 {
                        assert(w[j - 1] == dims[j]);
                    }
                }
            },
        }
    }
}

/// Two lengths are the same in either order; one that is a number is the same as itself,
/// one that is not is the same as none.
pub proof fn lemma_same_lengths(a: IntervalView, b: IntervalView)
    ensures
        same_length(a, b) ==> same_length(b, a),
        same_length(a, a) <==> a.text != "NaN"@,
        same_length(a, b) ==> a.ns == b.ns && a.finite == b.finite && a.text != "NaN"@,
        same_length(a, b) && a.text != b.text ==> (a.text == "0"@ || a.text == "-0"@) && (b.text
            == "0"@ || b.text == "-0"@),
        same_lengths(Some(a), Some(b)) == same_length(a, b),
        same_lengths(None, None),
        !same_lengths(Some(a), None) && !same_lengths(None, Some(b)),
{
    reveal_strlit("0");
    reveal_strlit("-0");
    reveal_strlit("NaN");
    assert("NaN"@.len() == 3);
    assert("0"@.len() == 1);
    assert("-0"@.len() == 2);
}

/// Two grids are the same where they have the same schedule, the same interval, the same
/// span and show their keys alike.
pub proof fn lemma_same_grids(a: GridView, b: GridView)
    ensures
        same_grids(a, b) <==> a.cron == b.cron && same_lengths(a.interval, b.interval) && a.start
            == b.start && a.end == b.end && a.fmt == b.fmt,
{
}

/// Two schemes of several dimensions are the same where they have as many, in the same
/// order, of the same names and the same schemes.
pub proof fn lemma_same_dims(x: Seq<(Seq<char>, DefView)>, y: Seq<(Seq<char>, DefView)>)
    ensures
        same_schemes(DefView::Multi(x), DefView::Multi(y)) == same_dims(x, y),
        same_dims(x, y) <==> x.len() == y.len() && forall|i: int|
            0 <= i < x.len() ==> (#[trigger] x[i]).0 == y[i].0 && same_schemes(x[i].1, y[i].1),
    decreases x.len(),
{
    if x.len() > 0 && y.len() > 0 {
        let v = x.drop_last();
        let w = y.drop_last();
        lemma_same_dims(v, w);
        if same_dims(x, y) {
            assert forall|i: int| 0 <= i < x.len() implies (#[trigger] x[i]).0 == y[i].0
                && same_schemes(x[i].1, y[i].1) by {
                if i < v.len() {
                    assert(v[i] == x[i] && w[i] == y[i]);
                }
            }
        }
        if x.len() == y.len() && forall|i: int|
            0 <= i < x.len() ==> (#[trigger] x[i]).0 == y[i].0 && same_schemes(x[i].1, y[i].1) {
            assert forall|i: int| 0 <= i < v.len() implies (#[trigger] v[i]).0 == w[i].0
                && same_schemes(v[i].1, w[i].1) by {
                assert(x[i].0 == y[i].0);
            }
            assert(x[x.len() - 1].0 == y[x.len() - 1].0);
        }
    }
}

/// Schemes of different kinds are never the same; those of fixed keys are where they list
/// the same keys in the same order, and dynamic ones where they have the same name.
pub proof fn lemma_same_schemes(a: DefView, b: DefView)
    ensures
        same_schemes(a, b) ==> (a is Static <==> b is Static) && (a is TimeWindow
            <==> b is TimeWindow) && (a is Multi <==> b is Multi) && (a is Dynamic
            <==> b is Dynamic),
        a is Static && b is Static ==> (same_schemes(a, b) <==> a->Static_0 == b->Static_0),
        a is Dynamic && b is Dynamic ==> (same_schemes(a, b) <==> a->Dynamic_0 == b->Dynamic_0),
        a is TimeWindow && b is TimeWindow ==> same_schemes(a, b) == same_grids(
            a->TimeWindow_0,
            b->TimeWindow_0,
        ),
{
}

/// A moment lies on an interval grid where it is a whole number of steps from its start. On
/// a schedule it does where the schedule can be read and names it.
pub proof fn lemma_on_grid(g: GridView, t: int)
    ensures
        g.cron is None && g.interval is Some && g.interval->0.ns > 0 ==> on_grid(g, t) == Ok::<
            bool,
            FaultView,
        >((t - g.start) % g.interval->0.ns == 0),
        g.cron is None && g.interval is None ==> on_grid(g, t) == Ok::<bool, FaultView>(false),
        g.cron is Some && t % 1_000_000_000 != 0 ==> on_grid(g, t) == Ok::<bool, FaultView>(false),
        g.cron is Some && t % 1_000_000_000 == 0 && cron_ticks(g.cron->0, t) is Err ==> on_grid(
            g,
            t,
        ) is Err,
        g.cron is Some && on_grid(g, t) == Ok::<bool, FaultView>(true) ==> cron_ticks(
            g.cron->0,
            t,
        ) is Ok && cron_ticks(g.cron->0, t)->Ok_0.len() > 0 && cron_ticks(g.cron->0, t)->Ok_0[0]
            == t,
        g.cron is Some && t % 1_000_000_000 == 0 && min_at() <= t + 1_000_000_000 <= max_at()
            && cron_ticks(g.cron->0, t) is Ok && cron_ticks(g.cron->0, t)->Ok_0.len() > 0
            && cron_ticks(g.cron->0, t)->Ok_0[0] == t ==> on_grid(g, t) == Ok::<bool, FaultView>(
            true,
        ),
{
    if let Some(expr) = g.cron {
        if let Ok(ts) = cron_ticks(expr, t) {
            let end = match stepped(t, NANOS as int) {
                Some(e) => e,
                None => max_at(),
            };
            lemma_walk_before(ts, end);
        }
    }
}

/// Of a list of moments the first that is not on a grid decides.
pub proof fn lemma_first_off_grid(ts: Seq<int>, g: GridView)
    ensures
        match first_off_grid(ts, g) {
            Ok(Some(t)) => exists|i: int|
                0 <= i < ts.len() && #[trigger] ts[i] == t && on_grid(g, t) == Ok::<
                    bool,
                    FaultView,
                >(false) && forall|j: int|
                    0 <= j < i ==> on_grid(g, #[trigger] ts[j]) == Ok::<bool, FaultView>(true),
            Ok(None) => forall|i: int|
                0 <= i < ts.len() ==> on_grid(g, #[trigger] ts[i]) == Ok::<bool, FaultView>(true),
            Err(e) => exists|i: int|
                0 <= i < ts.len() && on_grid(g, #[trigger] ts[i]) == Err::<bool, FaultView>(e),
        },
    decreases ts.len(),
{
    if ts.len() > 0 {
        let w = ts.drop_last();
        lemma_first_off_grid(w, g);
        match first_off_grid(w, g) {
            Ok(Some(t)) => {
                let i = choose|i: int|
                    0 <= i < w.len() && #[trigger] w[i] == t && on_grid(g, t) == Ok::<
                        bool,
                        FaultView,
                    >(false) && forall|j: int|
                        0 <= j < i ==> on_grid(g, #[trigger] w[j]) == Ok::<bool, FaultView>(true);
                assert(ts[i] == t);
                assert forall|j: int| 0 <= j < i implies on_grid(g, #[trigger] ts[j]) == Ok::<
                    bool,
                    FaultView,
                >(true) by {
                    assert(w[j] == ts[j]);
                }
            },
            Ok(None) => {
                assert forall|j: int| 0 <= j < ts.len() - 1 implies on_grid(g, #[trigger] ts[j])
                    == Ok::<bool, FaultView>(true) by {
                    assert(w[j] == ts[j]);
                }
                assert(ts[ts.len() - 1] == ts.last());
            },
            Err(e) => {
                let i = choose|i: int|
                    0 <= i < w.len() && on_grid(g, #[trigger] w[i]) == Err::<bool, FaultView>(e);
                assert(ts[i] == w[i]);
            },
        }
    }
}

/// The windows that are tried for one grid to lie on another: the first of them within four
/// years of the start. Where a grid has both a schedule and an interval the schedule counts.
pub proof fn lemma_trial(g: GridView)
    ensures
        ({
            let end = if g.start + 126_230_400_000_000_000 <= max_at() && min_at() <= g.start
                + 126_230_400_000_000_000 {
                g.start + 126_230_400_000_000_000
            } else {
                max_at()
            };
            let first = if g.cron is Some {
                GridView { interval: None, ..g }
            } else {
                g
            };
            let all = grid_ticks(first, end);
            &&& trial_ticks(g) is Ok <==> all is Ok
            &&& all is Ok && all->Ok_0.len() <= 1024 ==> trial_ticks(g)->Ok_0 == all->Ok_0
            &&& all is Ok && all->Ok_0.len() > 1024 ==> trial_ticks(g)->Ok_0 == all->Ok_0.take(1024)
        }),
{
    if let Ok(ts) = trial_ticks(g) {
        let end = crate::partitions::grid_compat::trial_end(g);
        let all = grid_ticks(schedule_first(g), end)->Ok_0;
        if all.len() <= 1024 {
            assert(ts =~= all);
        } else {
            assert(ts =~= all.take(1024));
        }
    }
}

/// A key can be shifted on a time scheme alone, by what is known of the shift.
pub proof fn lemma_shifted(d: DefView, key: Seq<char>, offset: i64, shifts: Shifts)
    ensures
        !(d is TimeWindow) ==> shifted_key(d, key, offset, shifts) is Err,
        d matches DefView::TimeWindow(g) ==> {
            &&& shifted_key(d, key, offset, shifts) is Ok <==> shifts.of(g, key, offset) is Ok
            &&& shifts.of(g, key, offset) matches Ok(k) ==> shifted_key(d, key, offset, shifts)
                == Ok::<Seq<char>, FaultView>(k)
        },
        shifted_key(d, key, offset, shifts) matches Err(e) ==> e.0 == FaultKind::Definition,
{
}

/// What a scheme is called.
pub proof fn lemma_variant(a: DefView, b: DefView)
    ensures
        a is Static ==> variant_of(a) == "Static"@,
        a is TimeWindow ==> variant_of(a) == "TimeWindow"@,
        a is Multi ==> variant_of(a) == "Multi"@,
        a is Dynamic ==> variant_of(a) == "Dynamic"@,
        same_variants(a, b) <==> (a is Static && b is Static) || (a is TimeWindow && b is TimeWindow)
            || (a is Multi && b is Multi) || (a is Dynamic && b is Dynamic),
{
}

} // verus!
