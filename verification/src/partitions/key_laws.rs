//! What holds of each key of a scheme: the listed keys are valid and distinct, a key that
//! is not listed is refused, a cap takes keys from the end alone, and windows follow one
//! another.
use vstd::prelude::*;
use crate::errors::FaultView;
use crate::moment::{
    fires, formatted, lemma_walk_before, max_at, min_at, on_second, second_of, walk_from, NANOS,
    SCHEDULE_END,
};
use crate::partitions::definition::{all_keys, capped, capped_dims, dims_keys, single_keys, DefView};
use crate::partitions::grid::{
    format_all, grid_end, grid_keys, grid_ticks, interval_walk, lemma_format_all,
    lemma_interval_walk, GridView,
};
use crate::partitions::grid_laws::{
    lemma_find_shown, lemma_find_shown_some, lemma_scheduled_key_listed,
    lemma_scheduled_key_valid, lemma_ticks_ascend, lemma_ticks_prefix, scheduled,
};
use crate::partitions::key::KeyView;
use crate::partitions::key_set::no_repeats;
use crate::partitions::listing_laws::{
    distinct_dims, distinct_keyed, lemma_combo_parts, lemma_dims_keys, lemma_single_views, lifted,
};
use crate::partitions::meet_laws::lemma_dims_listed;
use crate::partitions::product::{
    combo_at, combo_key, combos, lemma_combo_at, lemma_combo_count,
};
use crate::partitions::product_laws::{lemma_combo_key_listed, lemma_combo_keys, named, picks};
use crate::partitions::readings::Readings;
use crate::partitions::rules::{
    dim_checks, dim_valid, find_shown, key_index, key_valid, lemma_place_in, lemma_verdict_all,
    nearby_start, single_valid, time_window_of, value_checks, verdict, window_checks, window_valid,
};
use crate::schedule_laws::{
    lemma_between_steps, lemma_search_one_back, lemma_walk_fires, spaced,
};

verus! {

/// Whether each key of a grid reads as its window start.
pub open spec fn keys_read_back(g: GridView, now: int, readings: Readings) -> bool {
    grid_ticks(g, grid_end(g, now)) matches Ok(ts) && format_all(ts, g.fmt) matches Ok(ks)
        && forall|i: int|
        0 <= i < ts.len() ==> readings.of(#[trigger] ks[i], g.fmt) == Ok::<int, Seq<char>>(ts[i])
}

/// Whether a dimension is such as its definition promises: the keys of a static one are
/// distinct, a grid has a cadence and its keys read back.
pub open spec fn sound_dim(d: DefView, now: int, readings: Readings) -> bool {
    match d {
        DefView::Static(keys) => no_repeats(keys),
        DefView::TimeWindow(g) => {
            &&& keys_read_back(g, now, readings)
            &&& match g.interval {
                Some(iv) => iv.ns > 0,
                None => scheduled(g, grid_end(g, now)),
            }
        },
        _ => false,
    }
}

/// Whether a scheme is such as its definition promises: each of its dimensions is, and
/// they have distinct names.
pub open spec fn sound(d: DefView, now: int, readings: Readings) -> bool {
    match d {
        DefView::Multi(dims) => distinct_dims(dims) && forall|j: int|
            0 <= j < dims.len() ==> sound_dim((#[trigger] dims[j]).1, now, readings),
        _ => sound_dim(d, now, readings),
    }
}

/// Every listed key of a dimension is valid.
pub proof fn lemma_listed_key_valid(d: DefView, now: int, readings: Readings, i: int)
    requires
        sound_dim(d, now, readings),
        single_keys(d, now) is Ok,
        0 <= i < single_keys(d, now)->Ok_0.len(),
    ensures
        single_valid(d, now, seq![single_keys(d, now)->Ok_0[i]], readings) == Ok::<
            bool,
            FaultView,
        >(true),
{
    let keys = single_keys(d, now)->Ok_0;
    let one = seq![keys[i]];
    match d {
        DefView::Static(valid) => {
            lemma_single_views(valid);
            assert(keys =~= valid);
            assert(valid.contains(valid[i]));
            assert forall|j: int| 0 <= j < one.len() implies valid.contains(#[trigger] one[j]) by {}
        },
        DefView::TimeWindow(g) => {
            let end = grid_end(g, now);
            let ts = grid_ticks(g, end)->Ok_0;
            let ks = grid_keys(g, end)->Ok_0;
            lemma_single_views(ks);
            lemma_format_all(ts, g.fmt);
            assert(formatted(ts[i], g.fmt) == Some(ks[i]));
            assert(readings.of(ks[i], g.fmt) == Ok::<int, Seq<char>>(ts[i]));
            match g.interval {
                Some(iv) => {
                    let walk = interval_walk(g.start, iv.ns, end);
                    lemma_interval_walk(g.start, iv.ns, end);
                    assert(ts[i] == walk[i]);
                    vstd::arithmetic::div_mod::lemma_mod_multiples_basic(i, iv.ns);
                },
                None => {
                    lemma_scheduled_key_valid(g, end, i, ks[i]);
                },
            }
            let checks = window_checks(g, now, one, readings);
            assert(checks.len() == 1);
            assert(checks[0] == window_valid(g, end, one[0], readings.of(one[0], g.fmt)));
            lemma_verdict_all(checks);
        },
        _ => {},
    }
}

/// Every listed key of a scheme is valid.
pub proof fn lemma_listed_keys_valid(d: DefView, now: int, readings: Readings, i: int)
    requires
        all_keys(d, now) is Ok,
        0 <= i < all_keys(d, now)->Ok_0.len(),
        sound(d, now, readings),
    ensures
        key_valid(d, now, all_keys(d, now)->Ok_0[i], readings) == Ok::<bool, FaultView>(true),
{
    let v = all_keys(d, now)->Ok_0;
    match d {
        DefView::Multi(dims) => {
            let dk = dims_keys(dims, now)->Ok_0;
            lemma_dims_keys(dims, now);
            lemma_combo_count(dk);
            lemma_combo_at(dk, i);
            assert(distinct_keyed(dk)) by {
                assert forall|a: int, b: int| 0 <= a < b < dk.len() implies (#[trigger] dk[a]).0
                    != (#[trigger] dk[b]).0 by {
                    assert(dims[a].0 != dims[b].0);
                }
            }
            lemma_combo_parts(dk, i);
            let c = combo_at(dk, i);
            let m = lifted(c);
            assert(v[i] == combo_key(combos(dk)[i]));
            assert(combo_key(c)->Multi_0 =~= m);
            assert(m.dom() =~= c.dom());
            let checks = dim_checks(dims, now, m, readings);
            assert forall|j: int| 0 <= j < checks.len() implies #[trigger] checks[j] == Ok::<
                bool,
                FaultView,
            >(true) by {
                let dim = dims[j];
                assert(dk[j].0 == dim.0);
                assert(c.dom().contains(dim.0)) by {
                    assert(dk[j].0 == dim.0);
                }
                assert(dk[j].1.contains(c[dk[j].0]));
                let x = choose|x: int| 0 <= x < dk[j].1.len() && dk[j].1[x] == c[dk[j].0];
                lemma_listed_key_valid(dim.1, now, readings, x);
                assert(m[dim.0] =~= seq![c[dim.0]]);
                let inner = value_checks(dim.1, now, m[dim.0], readings);
                assert(inner.len() == 1);
                assert(inner[0] == single_valid(dim.1, now, seq![m[dim.0][0]], readings));
                lemma_verdict_all(inner);
                assert(checks[j] == dim_valid(dim, now, m, readings));
            }
            lemma_verdict_all(checks);
        },
        DefView::Static(keys) => {
            lemma_single_views(keys);
            lemma_listed_key_valid(d, now, readings, i);
        },
        DefView::TimeWindow(g) => {
            lemma_single_views(grid_keys(g, grid_end(g, now))->Ok_0);
            lemma_listed_key_valid(d, now, readings, i);
        },
        DefView::Dynamic(_) => {},
    }
}

/// The keys that a dimension lists are distinct.
pub proof fn lemma_dim_keys_distinct(d: DefView, now: int, readings: Readings)
    requires
        sound_dim(d, now, readings),
        single_keys(d, now) is Ok,
    ensures
        no_repeats(single_keys(d, now)->Ok_0),
{
    let keys = single_keys(d, now)->Ok_0;
    match d {
        DefView::Static(ks) => {
            lemma_single_views(ks);
        },
        DefView::TimeWindow(g) => {
            let end = grid_end(g, now);
            let ts = grid_ticks(g, end)->Ok_0;
            let ks = grid_keys(g, end)->Ok_0;
            lemma_single_views(ks);
            lemma_format_all(ts, g.fmt);
            lemma_ticks_ascend(g, end);
            assert forall|i: int, j: int| 0 <= i < j < ks.len() implies #[trigger] ks[i]
                != #[trigger] ks[j] by {
                assert(readings.of(ks[i], g.fmt) == Ok::<int, Seq<char>>(ts[i]));
                assert(readings.of(ks[j], g.fmt) == Ok::<int, Seq<char>>(ts[j]));
                assert(ts[i] < ts[j]);
            }
        },
        _ => {},
    }
}

/// Whether a key gives each of its dimensions one value.
pub open spec fn one_value_each(k: KeyView) -> bool {
    match k {
        KeyView::Single(keys) => keys.len() == 1,
        KeyView::Multi(m) => forall|n: Seq<char>| #[trigger]
            m.dom().contains(n) ==> m[n].len() == 1,
        KeyView::Batch(_) => false,
    }
}

/// No two listed keys of a scheme are the same, and each gives every dimension one value.
pub proof fn lemma_listed_keys_distinct(d: DefView, now: int, readings: Readings)
    requires
        all_keys(d, now) is Ok,
        sound(d, now, readings),
    ensures
        forall|i: int, j: int|
            0 <= i < j < all_keys(d, now)->Ok_0.len() ==> #[trigger] all_keys(d, now)->Ok_0[i]
                != #[trigger] all_keys(d, now)->Ok_0[j],
        forall|i: int|
            0 <= i < all_keys(d, now)->Ok_0.len() ==> one_value_each(
                #[trigger] all_keys(d, now)->Ok_0[i],
            ),
        d matches DefView::Multi(dims) ==> forall|i: int, j: int|
            0 <= i < all_keys(d, now)->Ok_0.len() && 0 <= j < dims.len() ==> (
            #[trigger] all_keys(d, now)->Ok_0[i])->Multi_0.dom().contains((#[trigger] dims[j]).0),
{
    let v = all_keys(d, now)->Ok_0;
    match d {
        DefView::Multi(dims) => {
            let dk = dims_keys(dims, now)->Ok_0;
            lemma_dims_keys(dims, now);
            assert(distinct_keyed(dk)) by {
                assert forall|a: int, b: int| 0 <= a < b < dk.len() implies (#[trigger] dk[a]).0
                    != (#[trigger] dk[b]).0 by {
                    assert(dims[a].0 != dims[b].0);
                }
            }
            assert forall|i: int| 0 <= i < dk.len() implies no_repeats((#[trigger] dk[i]).1) by {
                assert(sound_dim(dims[i].1, now, readings));
                lemma_dim_keys_distinct(dims[i].1, now, readings);
            }
            assert forall|i: int, j: int| 0 <= i < j < v.len() implies #[trigger] v[i]
                != #[trigger] v[j] by {
                lemma_combo_keys(dk, i);
            }
            assert forall|i: int| 0 <= i < v.len() implies one_value_each(#[trigger] v[i]) by {
                lemma_combo_keys(dk, i);
            }
            assert forall|i: int, j: int| 0 <= i < v.len() && 0 <= j < dims.len() implies (
            #[trigger] v[i])->Multi_0.dom().contains((#[trigger] dims[j]).0) by {
                lemma_combo_keys(dk, i);
                assert(dk[j].0 == dims[j].0);
                assert(combo_at(dk, i).dom().contains(dims[j].0));
            }
        },
        DefView::Static(ks) => {
            lemma_single_views(ks);
            assert forall|i: int, j: int| 0 <= i < j < v.len() implies #[trigger] v[i]
                != #[trigger] v[j] by {
                assert(seq![ks[i]][0] != seq![ks[j]][0]);
            }
        },
        DefView::TimeWindow(g) => {
            let ks = grid_keys(g, grid_end(g, now))->Ok_0;
            lemma_single_views(ks);
            lemma_dim_keys_distinct(d, now, readings);
            assert forall|i: int, j: int| 0 <= i < j < v.len() implies #[trigger] v[i]
                != #[trigger] v[j] by {
                assert(seq![ks[i]][0] != seq![ks[j]][0]);
            }
        },
        DefView::Dynamic(_) => {},
    }
}

/// Where no check of a list fails, the list is accepted or refused.
proof fn lemma_verdict_settled(v: Seq<Result<bool, FaultView>>)
    requires
        forall|i: int| 0 <= i < v.len() ==> (#[trigger] v[i]) is Ok,
    ensures
        verdict(v) is Ok,
    decreases v.len(),
{
    if v.len() > 0 {
        let w = v.drop_last();
        assert forall|i: int| 0 <= i < w.len() implies (#[trigger] w[i]) is Ok by {
            assert(v[i] is Ok);
        }
        lemma_verdict_settled(w);
        assert(v[v.len() - 1] is Ok);
    }
}

/// Whether every text of a list is a listed key of a dimension, and there are any.
pub open spec fn all_listed(listed: Seq<Seq<char>>, keys: Seq<Seq<char>>) -> bool {
    keys.len() > 0 && forall|i: int| 0 <= i < keys.len() ==> listed.contains(#[trigger] keys[i])
}

/// A static scheme, and one that goes by a schedule, accept exactly the listed keys, and
/// refuse the others without a fault. The schedule names no two seconds in a row, its
/// windows lie before the year 5000, and no text reads as a place between two seconds
/// from which the schedule would be searched.
pub proof fn lemma_accepted_are_listed(
    d: DefView,
    now: int,
    keys: Seq<Seq<char>>,
    readings: Readings,
)
    requires
        sound_dim(d, now, readings),
        single_keys(d, now) is Ok,
        d matches DefView::TimeWindow(g) ==> {
            &&& g.interval is None
            &&& grid_end(g, now) <= SCHEDULE_END
            &&& spaced(g.cron->0, g.start, grid_end(g, now))
            &&& single_keys(d, now)->Ok_0.len() < usize::MAX
            &&& forall|i: int|
                0 <= i < keys.len() ==> (readings.of(#[trigger] keys[i], g.fmt) matches Ok(t)
                    ==> on_second(nearby_start(t, g.start)))
        },
    ensures
        single_valid(d, now, keys, readings) == Ok::<bool, FaultView>(
            all_listed(single_keys(d, now)->Ok_0, keys),
        ),
        key_valid(d, now, KeyView::Single(keys), readings) == Ok::<bool, FaultView>(
            all_listed(single_keys(d, now)->Ok_0, keys),
        ),
{
    let listed = single_keys(d, now)->Ok_0;
    match d {
        DefView::Static(valid) => {
            lemma_single_views(valid);
        },
        DefView::TimeWindow(g) => {
            let end = grid_end(g, now);
            let ts = grid_ticks(g, end)->Ok_0;
            let ks = grid_keys(g, end)->Ok_0;
            lemma_single_views(ks);
            lemma_format_all(ts, g.fmt);
            let checks = window_checks(g, now, keys, readings);
            assert forall|i: int| 0 <= i < keys.len() implies #[trigger] checks[i] == Ok::<
                bool,
                FaultView,
            >(listed.contains(keys[i])) by {
                let k = keys[i];
                assert(checks[i] == window_valid(g, end, k, readings.of(k, g.fmt)));
                lemma_scheduled_key_listed(g, end, k, readings.of(k, g.fmt));
                if listed.contains(k) {
                    let x = choose|x: int| 0 <= x < ks.len() && ks[x] == k;
                    assert(formatted(ts[x], g.fmt) == Some(ks[x]));
                    assert(readings.of(ks[x], g.fmt) == Ok::<int, Seq<char>>(ts[x]));
                    lemma_scheduled_key_valid(g, end, x, k);
                }
            }
            lemma_verdict_settled(checks);
            lemma_verdict_all(checks);
            if all_listed(listed, keys) {
                assert forall|i: int| 0 <= i < checks.len() implies #[trigger] checks[i] == Ok::<
                    bool,
                    FaultView,
                >(true) by {
                    assert(listed.contains(keys[i]));
                }
            } else if keys.len() > 0 {
                let i = choose|i: int|
                    0 <= i < keys.len() && !listed.contains(#[trigger] keys[i]);
                assert(checks[i] != Ok::<bool, FaultView>(true));
            }
        },
        _ => {},
    }
}

/// The index of a listed key is its place in the list.
pub proof fn lemma_index_of_listed_key(d: DefView, now: int, readings: Readings, i: int)
    requires
        sound_dim(d, now, readings),
        single_keys(d, now) is Ok,
        0 <= i < single_keys(d, now)->Ok_0.len(),
    ensures
        key_index(d, now, single_keys(d, now)->Ok_0[i], readings) == Ok::<
            Option<int>,
            FaultView,
        >(Some(i)),
{
    let keys = single_keys(d, now)->Ok_0;
    match d {
        DefView::Static(ks) => {
            lemma_single_views(ks);
            assert(ks.contains(ks[i]));
            lemma_place_in(ks, ks[i], i);
        },
        DefView::TimeWindow(g) => {
            let end = grid_end(g, now);
            let ts = grid_ticks(g, end)->Ok_0;
            let ks = grid_keys(g, end)->Ok_0;
            lemma_single_views(ks);
            lemma_format_all(ts, g.fmt);
            match g.interval {
                Some(iv) => {
                    let walk = interval_walk(g.start, iv.ns, end);
                    lemma_interval_walk(g.start, iv.ns, end);
                    assert(ts[i] == walk[i]);
                    assert(readings.of(ks[i], g.fmt) == Ok::<int, Seq<char>>(ts[i]));
                    vstd::arithmetic::div_mod::lemma_mod_multiples_basic(i, iv.ns);
                    vstd::arithmetic::div_mod::lemma_div_by_multiple(i, iv.ns);
                },
                None => {
                    assert(formatted(ts[i], g.fmt) == Some(ks[i]));
                    lemma_find_shown_some(ts, g.fmt, ks[i], i, 0);
                    lemma_dim_keys_distinct(d, now, readings);
                    let j = find_shown(ts, g.fmt, ks[i], 0)->Ok_0->Some_0;
                    assert(formatted(ts[j], g.fmt) == Some(ks[j]));
                },
            }
        },
        _ => {},
    }
}

/// A text that is no listed key of a static scheme, or of one that goes by a schedule,
/// has no index.
pub proof fn lemma_no_index_of_others(d: DefView, now: int, readings: Readings, key: Seq<char>)
    requires
        d is Static || (d matches DefView::TimeWindow(g) && g.interval is None),
        single_keys(d, now) is Ok,
        !single_keys(d, now)->Ok_0.contains(key),
    ensures
        key_index(d, now, key, readings) == Ok::<Option<int>, FaultView>(None),
{
    match d {
        DefView::Static(ks) => {
            lemma_single_views(ks);
        },
        DefView::TimeWindow(g) => {
            let end = grid_end(g, now);
            let ts = grid_ticks(g, end)->Ok_0;
            let ks = grid_keys(g, end)->Ok_0;
            lemma_single_views(ks);
            lemma_format_all(ts, g.fmt);
            if ts.len() > 0 {
                assert(formatted(ts[0], g.fmt) is Some);
            }
            lemma_find_shown(ts, g.fmt, key, 0);
            if let Ok(Some(j)) = find_shown(ts, g.fmt, key, 0) {
                assert(formatted(ts[j], g.fmt) == Some(ks[j]));
                assert(ks.contains(key));
            }
        },
        _ => {},
    }
}

/// A cap takes window starts from the end of a grid alone: it keeps a prefix of them, all
/// where it lies at the end of the grid or behind it, and none where it lies at the start
/// or before.
pub proof fn lemma_cap_keeps_prefix(g: GridView, cap: int, now: int)
    requires
        g.interval matches Some(iv) ==> iv.ns > 0,
        grid_ticks(g, grid_end(g, now)) is Ok,
        g.end is None ==> cap <= now,
    ensures
        capped(DefView::TimeWindow(g), cap) matches DefView::TimeWindow(c) && {
            let some = grid_ticks(c, grid_end(c, now));
            let all = grid_ticks(g, grid_end(g, now))->Ok_0;
            &&& some is Ok
            &&& some->Ok_0.is_prefix_of(all)
            &&& cap >= grid_end(g, now) ==> some->Ok_0 == all
            &&& cap <= g.start ==> some->Ok_0.len() == 0
        },
{
    let c = capped(DefView::TimeWindow(g), cap)->TimeWindow_0;
    let near = grid_end(c, now);
    let end = grid_end(g, now);
    assert(near <= end);
    lemma_ticks_prefix(g, near, end);
    assert(grid_ticks(c, near) == grid_ticks(g, near));
    lemma_ticks_ascend(g, near);
    if near <= g.start && grid_ticks(g, near)->Ok_0.len() > 0 {
        assert(g.start <= grid_ticks(g, near)->Ok_0[0] < near);
    }
}

/// The keys of a capped dimension are the first keys of the dimension: all of them where
/// the cap lies at the end of its grid or behind it, none where it lies at the start or
/// before. A static one has the same keys under every cap.
pub proof fn lemma_capped_keys(d: DefView, cap: int, now: int)
    requires
        can_cap(d, cap, now),
        single_keys(d, now) is Ok,
    ensures
        single_keys(capped(d, cap), now) matches Ok(some) && {
            let all = single_keys(d, now)->Ok_0;
            &&& some.is_prefix_of(all)
            &&& d is Static ==> some == all
            &&& d matches DefView::TimeWindow(g) ==> {
                &&& cap >= grid_end(g, now) ==> some == all
                &&& cap <= g.start ==> some.len() == 0
            }
        },
{
    match d {
        DefView::TimeWindow(g) => {
            let c = capped(d, cap)->TimeWindow_0;
            lemma_cap_keeps_prefix(g, cap, now);
            let a = grid_ticks(c, grid_end(c, now))->Ok_0;
            let b = grid_ticks(g, grid_end(g, now))->Ok_0;
            lemma_format_all(b, g.fmt);
            lemma_format_all(a, g.fmt);
            assert(format_all(a, g.fmt) is Ok) by {
                if format_all(a, g.fmt) is Err {
                    let i = choose|i: int| 0 <= i < a.len() && formatted(#[trigger] a[i], g.fmt) is None;
                    assert(a[i] == b[i]);
                    assert(formatted(b[i], g.fmt) is Some);
                }
            }
            let x = format_all(a, g.fmt)->Ok_0;
            let y = format_all(b, g.fmt)->Ok_0;
            lemma_single_views(x);
            lemma_single_views(y);
            assert forall|i: int| 0 <= i < x.len() implies x[i] == y[i] by {
                assert(a[i] == b[i]);
                assert(formatted(a[i], g.fmt) == Some(x[i]));
                assert(formatted(b[i], g.fmt) == Some(y[i]));
            }
            assert(x.is_prefix_of(y));
        },
        _ => {},
    }
}

/// Whether a cap at a place ends what a dimension lists, and adds nothing to it.
pub open spec fn can_cap(d: DefView, cap: int, now: int) -> bool {
    match d {
        DefView::Static(_) => true,
        DefView::TimeWindow(g) => {
            &&& g.interval matches Some(iv) ==> iv.ns > 0
            &&& g.end is None ==> cap <= now
        },
        _ => false,
    }
}

proof fn lemma_capped_dims(dims: Seq<(Seq<char>, DefView)>, cap: int)
    ensures
        capped_dims(dims, cap).len() == dims.len(),
        forall|i: int|
            0 <= i < dims.len() ==> #[trigger] capped_dims(dims, cap)[i] == (
                dims[i].0,
                capped(dims[i].1, cap),
            ),
    decreases dims.len(),
{
    if dims.len() > 0 {
        lemma_capped_dims(dims.drop_last(), cap);
        let c = capped_dims(dims, cap);
        assert forall|i: int| 0 <= i < dims.len() implies #[trigger] c[i] == (
            dims[i].0,
            capped(dims[i].1, cap),
        ) by {
            if i < dims.len() - 1 {
                assert(c[i] == capped_dims(dims.drop_last(), cap)[i]);
            }
        }
    }
}

/// A cap adds no key to a scheme of several dimensions.
pub proof fn lemma_capped_keys_remain(dims: Seq<(Seq<char>, DefView)>, cap: int, now: int)
    requires
        distinct_dims(dims),
        forall|i: int| 0 <= i < dims.len() ==> can_cap((#[trigger] dims[i]).1, cap, now),
        all_keys(DefView::Multi(dims), now) is Ok,
    ensures
        all_keys(capped(DefView::Multi(dims), cap), now) matches Ok(some) && forall|k: KeyView| #[trigger]
            some.contains(k) ==> all_keys(DefView::Multi(dims), now)->Ok_0.contains(k),
{
    let c = capped_dims(dims, cap);
    lemma_capped_dims(dims, cap);
    lemma_dims_keys(dims, now);
    let dk = dims_keys(dims, now)->Ok_0;
    assert forall|i: int| 0 <= i < c.len() implies single_keys((#[trigger] c[i]).1, now) is Ok by {
        assert(dk[i].0 == dims[i].0);
        lemma_capped_keys(dims[i].1, cap, now);
    }
    lemma_dims_listed(c, now);
    lemma_dims_keys(c, now);
    let ck = dims_keys(c, now)->Ok_0;
    assert forall|i: int| 0 <= i < ck.len() implies (#[trigger] ck[i]).0 == dk[i].0
        && ck[i].1.is_prefix_of(dk[i].1) by {
        assert(c[i] == (dims[i].0, capped(dims[i].1, cap)));
        assert(dk[i].0 == dims[i].0);
        lemma_capped_keys(dims[i].1, cap, now);
    }
    assert(distinct_keyed(dk)) by {
        assert forall|a: int, b: int| 0 <= a < b < dk.len() implies (#[trigger] dk[a]).0 != (
        #[trigger] dk[b]).0 by {
            assert(dims[a].0 != dims[b].0);
        }
    }
    assert(distinct_keyed(ck)) by {
        assert forall|a: int, b: int| 0 <= a < b < ck.len() implies (#[trigger] ck[a]).0 != (
        #[trigger] ck[b]).0 by {
            assert(dk[a].0 != dk[b].0);
        }
    }
    let some = all_keys(DefView::Multi(c), now)->Ok_0;
    let all = all_keys(DefView::Multi(dims), now)->Ok_0;
    assert forall|k: KeyView| #[trigger] some.contains(k) implies all.contains(k) by {
        let i = choose|i: int| 0 <= i < some.len() && some[i] == k;
        lemma_combo_keys(ck, i);
        let m = combo_at(ck, i);
        assert(picks(dk, m)) by {
            assert forall|n: Seq<char>| #[trigger] m.dom().contains(n) <==> named(dk, n) by {
                if named(ck, n) {
                    let j = choose|j: int| 0 <= j < ck.len() && (#[trigger] ck[j]).0 == n;
                    assert(dk[j].0 == n);
                }
                if named(dk, n) {
                    let j = choose|j: int| 0 <= j < dk.len() && (#[trigger] dk[j]).0 == n;
                    assert(ck[j].0 == n);
                }
            }
            assert forall|j: int| 0 <= j < dk.len() implies dk[j].1.contains(
                m[(#[trigger] dk[j]).0],
            ) by {
                assert(ck[j].1.contains(m[ck[j].0]));
                let x = choose|x: int| 0 <= x < ck[j].1.len() && ck[j].1[x] == m[ck[j].0];
                assert(dk[j].1[x] == ck[j].1[x]);
            }
        }
        lemma_combo_key_listed(dk, m);
    }
}

/// The windows of a grid follow one another without gap or overlap: the window of a key
/// ends where that of the next begins. A schedule must not name the second after the
/// window start; nor may that, from the year 5000 on, be the last second of a minute.
pub proof fn lemma_windows_meet(g: GridView, now: int, readings: Readings, i: int)
    requires
        sound_dim(DefView::TimeWindow(g), now, readings),
        0 <= i,
        i + 1 < grid_ticks(g, grid_end(g, now))->Ok_0.len(),
        ({
            let t = grid_ticks(g, grid_end(g, now))->Ok_0[i];
            match g.interval {
                Some(_) => min_at() <= g.start && grid_end(g, now) <= max_at(),
                None => {
                    &&& !fires(g.cron->0, t + NANOS)
                    &&& grid_ticks(g, grid_end(g, now))->Ok_0[i + 1] < SCHEDULE_END || second_of(t)
                        != 58
                },
            }
        }),
    ensures
        ({
            let ts = grid_ticks(g, grid_end(g, now))->Ok_0;
            let ks = format_all(ts, g.fmt)->Ok_0;
            ts[i] < ts[i + 1] && time_window_of(DefView::TimeWindow(g), ks[i], readings) == Ok::<
                Option<(int, int)>,
                FaultView,
            >(Some((ts[i], ts[i + 1])))
        }),
{
    let end = grid_end(g, now);
    let ts = grid_ticks(g, end)->Ok_0;
    let ks = format_all(ts, g.fmt)->Ok_0;
    lemma_ticks_ascend(g, end);
    lemma_format_all(ts, g.fmt);
    assert(readings.of(ks[i], g.fmt) == Ok::<int, Seq<char>>(ts[i]));
    match g.interval {
        Some(iv) => {
            let step = iv.ns;
            let walk = interval_walk(g.start, step, end);
            assert(ts[i] == walk[i] && ts[i + 1] == walk[i + 1]);
            assert((i + 1) * step == i * step + step) by (nonlinear_arith);
        },
        None => {
            let expr = g.cron->0;
            let w = walk_from(expr, g.start);
            lemma_walk_before(w, end);
            assert(w[i] == ts[i] && w[i + 1] == ts[i + 1]);
            lemma_walk_fires(expr, g.start);
            lemma_between_steps(expr, g.start, i);
            lemma_search_one_back(expr, w[i], w[i + 1]);
        },
    }
}

/// A window ends after it starts.
pub proof fn lemma_window_goes_forward(d: DefView, key: Seq<char>, readings: Readings)
    requires
        d matches DefView::TimeWindow(g) && (g.interval matches Some(iv) ==> iv.ns > 0),
    ensures
        time_window_of(d, key, readings) matches Ok(Some(w)) ==> w.0 < w.1,
{
}

} // verus!
