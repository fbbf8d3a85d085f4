//! What holds of a scheme that was found without fault.
use vstd::prelude::*;
use crate::errors::FaultView;
use crate::moment::{formatted, in_calendar, on_second};
use crate::partitions::definition::{
    all_keys, def_view, def_wf, dims_of, lemma_dims_of, single_keys, DefView, PartitionsDefinition,
};
use crate::partitions::factory::{
    def_fault, dims_fault, grid_fault, lemma_first_fault_none, probe_ticks, repeat_fault,
    repeat_faults, tick_fault, tick_faults,
};
use crate::partitions::grid::{grid_end, grid_keys, GridView};
use crate::partitions::key_laws::{
    keys_read_back, lemma_index_of_listed_key, lemma_listed_keys_distinct,
    lemma_listed_keys_valid, lemma_no_index_of_others, one_value_each, sound, sound_dim,
};
use crate::partitions::listing_laws::{distinct_dims, lemma_single_views};
use crate::partitions::meet::{dim_names, meet};
use crate::partitions::meet_laws::{
    all_well_named, lemma_dims_listed, lemma_meet_symmetric, well_named,
};
use crate::partitions::readings::Readings;
use crate::partitions::relation_laws::{all_shareable, lemma_meet_itself, shareable};
use crate::partitions::rules::{key_index, key_valid};

verus! {

/// A grid without fault has one cadence, of at least a nanosecond or from a whole second
/// on, and the keys by which it was tried read as their window starts.
pub proof fn lemma_checked_grid(g: GridView, readings: Readings)
    requires
        grid_fault(g, readings) is None,
    ensures
        g.cron is Some <==> g.interval is None,
        g.interval matches Some(iv) ==> iv.finite && iv.ns > 0,
        g.cron is Some ==> on_second(g.start),
        probe_ticks(g) matches Ok(ts) && forall|i: int|
            0 <= i < ts.len() ==> (formatted(#[trigger] ts[i], g.fmt) matches Some(k)
                && readings.of(k, g.fmt) == Ok::<int, Seq<char>>(ts[i])),
{
    let ts = probe_ticks(g)->Ok_0;
    let faults = tick_faults(ts, g.fmt, readings);
    lemma_first_fault_none(faults);
    assert forall|i: int| 0 <= i < ts.len() implies (formatted(#[trigger] ts[i], g.fmt) matches Some(
        k,
    ) && readings.of(k, g.fmt) == Ok::<int, Seq<char>>(ts[i])) by {
        assert(faults[i] == tick_fault(ts[i], g.fmt, readings));
        assert(faults[i] is None);
    }
}

/// The dimensions of a scheme without fault have distinct names, and none of them is of
/// several dimensions itself; each is without fault.
pub proof fn lemma_checked_dims(dims: Seq<(Seq<char>, DefView)>, readings: Readings)
    requires
        def_fault(DefView::Multi(dims), readings) is None,
    ensures
        distinct_dims(dims),
        well_named(DefView::Multi(dims)),
        forall|i: int|
            0 <= i < dims.len() ==> !((#[trigger] dims[i]).1 is Multi) && def_fault(
                dims[i].1,
                readings,
            ) is None,
{
    let names = dim_names(dims);
    let faults = repeat_faults(names);
    lemma_first_fault_none(faults);
    assert forall|i: int, j: int| 0 <= i < j < dims.len() implies (#[trigger] dims[i]).0 != (
    #[trigger] dims[j]).0 by {
        assert(faults[j] == repeat_fault(names, j));
        assert(faults[j] is None);
        assert(names[i] == dims[i].0 && names[j] == dims[j].0);
        assert(names.take(j)[i] == names[i]);
    }
    lemma_checked_each(dims, readings);
}

proof fn lemma_checked_each(dims: Seq<(Seq<char>, DefView)>, readings: Readings)
    requires
        dims_fault(dims, readings) is None,
    ensures
        all_well_named(dims),
        forall|i: int|
            0 <= i < dims.len() ==> !((#[trigger] dims[i]).1 is Multi) && def_fault(
                dims[i].1,
                readings,
            ) is None,
    decreases dims.len(),
{
    if dims.len() > 0 {
        let w = dims.drop_last();
        lemma_checked_each(w, readings);
        assert(!(dims.last().1 is Multi));
        assert(well_named(dims.last().1));
        assert(all_well_named(dims));
        assert forall|i: int| 0 <= i < dims.len() implies !((#[trigger] dims[i]).1 is Multi)
            && def_fault(dims[i].1, readings) is None by {
            if i < w.len() {
                assert(w[i] == dims[i]);
            }
        }
    }
}

/// Whether a scheme can list its keys and read them back: it has no dynamic part, and the
/// keys of each of its time grids, which end, read as their window starts.
pub open spec fn reads_back(d: DefView, now: int, readings: Readings) -> bool {
    match d {
        DefView::Static(_) => true,
        DefView::TimeWindow(g) => g.end is Some && keys_read_back(g, now, readings),
        DefView::Multi(dims) => forall|i: int|
            0 <= i < dims.len() ==> match (#[trigger] dims[i]).1 {
                DefView::Static(_) => true,
                DefView::TimeWindow(g) => g.end is Some && keys_read_back(g, now, readings),
                _ => false,
            },
        DefView::Dynamic(_) => false,
    }
}

/// A dimension without fault that reads back is such as its definition promises.
proof fn lemma_checked_sound(d: PartitionsDefinition, now: int, readings: Readings)
    requires
        d.wf(),
        def_fault(d@, readings) is None,
        !(d is Multi),
        reads_back(d@, now, readings),
    ensures
        sound_dim(d@, now, readings),
        single_keys(d@, now) is Ok,
        all_keys(d@, now) is Ok,
{
    match d {
        PartitionsDefinition::Static { keys } => {
            lemma_single_views(keys@);
        },
        PartitionsDefinition::TimeWindow { grid } => {
            let g = grid@;
            lemma_checked_grid(g, readings);
            let ks = grid_keys(g, grid_end(g, now))->Ok_0;
            lemma_single_views(ks);
            assert(in_calendar(g.start));
        },
        _ => {},
    }
}

/// A scheme that is without fault and reads back lists its keys: no two of them are the
/// same, each is valid, and each has one value for every dimension.
pub proof fn lemma_checked_keys(d: PartitionsDefinition, now: int, readings: Readings)
    requires
        d.wf(),
        def_fault(d@, readings) is None,
        reads_back(d@, now, readings),
    ensures
        all_keys(d@, now) is Ok,
        forall|i: int, j: int|
            0 <= i < j < all_keys(d@, now)->Ok_0.len() ==> #[trigger] all_keys(d@, now)->Ok_0[i]
                != #[trigger] all_keys(d@, now)->Ok_0[j],
        forall|i: int|
            0 <= i < all_keys(d@, now)->Ok_0.len() ==> {
                &&& key_valid(d@, now, #[trigger] all_keys(d@, now)->Ok_0[i], readings) == Ok::<
                    bool,
                    FaultView,
                >(true)
                &&& one_value_each(all_keys(d@, now)->Ok_0[i])
            },
        d@ matches DefView::Multi(dims) ==> forall|i: int, j: int|
            0 <= i < all_keys(d@, now)->Ok_0.len() && 0 <= j < dims.len() ==> (
            #[trigger] all_keys(d@, now)->Ok_0[i])->Multi_0.dom().contains((#[trigger] dims[j]).0),
{
    match d {
        PartitionsDefinition::Multi { dimensions } => {
            let dims = dims_of(dimensions@);
            lemma_dims_of(dimensions@);
            lemma_checked_dims(dims, readings);
            assert forall|i: int| 0 <= i < dims.len() implies sound_dim(
                (#[trigger] dims[i]).1,
                now,
                readings,
            ) && single_keys(dims[i].1, now) is Ok by {
                assert(dims[i] == (dimensions@[i].0@, def_view(dimensions@[i].1)));
                assert(def_wf(dimensions@[i].1));
                lemma_checked_sound(dimensions@[i].1, now, readings);
            }
            lemma_dims_listed(dims, now);
        },
        _ => {
            lemma_checked_sound(d, now, readings);
        },
    }
    assert(sound(d@, now, readings));
    lemma_listed_keys_distinct(d@, now, readings);
    assert forall|i: int| 0 <= i < all_keys(d@, now)->Ok_0.len() implies key_valid(
        d@,
        now,
        #[trigger] all_keys(d@, now)->Ok_0[i],
        readings,
    ) == Ok::<bool, FaultView>(true) by {
        lemma_listed_keys_valid(d@, now, readings, i);
    }
}

/// The index of each listed key of a scheme of one dimension, which is without fault and
/// reads back, is its place in the list; a text that a static scheme, or one that goes by
/// a schedule, does not list has no index.
pub proof fn lemma_checked_index(d: PartitionsDefinition, now: int, readings: Readings)
    requires
        d.wf(),
        def_fault(d@, readings) is None,
        !(d is Multi),
        reads_back(d@, now, readings),
    ensures
        single_keys(d@, now) matches Ok(ks) && {
            &&& forall|i: int|
                0 <= i < ks.len() ==> key_index(
                    d@,
                    now,
                    #[trigger] ks[i],
                    readings,
                ) == Ok::<Option<int>, FaultView>(Some(i))
            &&& d@ is Static || d@->TimeWindow_0.cron is Some ==> forall|k: Seq<char>|
                !#[trigger] ks.contains(k) ==> key_index(d@, now, k, readings) == Ok::<
                    Option<int>,
                    FaultView,
                >(None)
        },
{
    lemma_checked_sound(d, now, readings);
    if let PartitionsDefinition::TimeWindow { grid } = d {
        lemma_checked_grid(grid@, readings);
    }
    let ks = single_keys(d@, now)->Ok_0;
    assert forall|i: int| 0 <= i < ks.len() implies key_index(
        d@,
        now,
        #[trigger] ks[i],
        readings,
    ) == Ok::<Option<int>, FaultView>(Some(i)) by {
        lemma_index_of_listed_key(d@, now, readings, i);
    }
    if d@ is Static || d@->TimeWindow_0.cron is Some {
        assert forall|k: Seq<char>| !#[trigger] ks.contains(k) implies key_index(
            d@,
            now,
            k,
            readings,
        ) == Ok::<Option<int>, FaultView>(None) by {
            lemma_no_index_of_others(d@, now, readings, k);
        }
    }
}

/// Whether the time grids of a scheme that end do so after they start.
pub open spec fn ends_after_start(d: DefView) -> bool {
    match d {
        DefView::TimeWindow(g) => g.end matches Some(e) ==> g.start < e,
        DefView::Multi(dims) => forall|i: int|
            0 <= i < dims.len() ==> ((#[trigger] dims[i]).1 matches DefView::TimeWindow(g)
                ==> (g.end matches Some(e) ==> g.start < e)),
        _ => true,
    }
}

proof fn lemma_checked_shareable(d: PartitionsDefinition, readings: Readings)
    requires
        d.wf(),
        def_fault(d@, readings) is None,
        !(d is Multi),
        ends_after_start(d@),
    ensures
        shareable(d@),
{
    if let PartitionsDefinition::TimeWindow { grid } = d {
        lemma_checked_grid(grid@, readings);
    }
}

proof fn lemma_all_shareable(dims: Seq<(Seq<char>, DefView)>)
    requires
        forall|i: int| 0 <= i < dims.len() ==> shareable((#[trigger] dims[i]).1),
    ensures
        all_shareable(dims),
    decreases dims.len(),
{
    if dims.len() > 0 {
        let w = dims.drop_last();
        assert forall|i: int| 0 <= i < w.len() implies shareable((#[trigger] w[i]).1) by {
            assert(dims[i] == w[i]);
        }
        lemma_all_shareable(w);
        assert(shareable(dims[dims.len() - 1].1));
    }
}

/// A scheme without fault is its own common part with itself, where its grids end after
/// they start.
pub proof fn lemma_checked_meets_itself(d: PartitionsDefinition, readings: Readings)
    requires
        d.wf(),
        def_fault(d@, readings) is None,
        ends_after_start(d@),
    ensures
        meet(d@, d@) == Ok::<DefView, Seq<char>>(d@),
{
    match d {
        PartitionsDefinition::Multi { dimensions } => {
            let dims = dims_of(dimensions@);
            lemma_dims_of(dimensions@);
            lemma_checked_dims(dims, readings);
            assert forall|i: int| 0 <= i < dims.len() implies shareable((#[trigger] dims[i]).1) by {
                assert(dims[i] == (dimensions@[i].0@, def_view(dimensions@[i].1)));
                assert(def_wf(dimensions@[i].1));
                lemma_checked_shareable(dimensions@[i].1, readings);
            }
            lemma_all_shareable(dims);
        },
        _ => {
            lemma_checked_shareable(d, readings);
        },
    }
    lemma_meet_itself(d@);
}

/// Of two schemes without fault either has a common part with the other, or neither.
pub proof fn lemma_checked_meet_alike(a: DefView, b: DefView, readings: Readings)
    requires
        def_fault(a, readings) is None,
        def_fault(b, readings) is None,
    ensures
        meet(a, b) is Ok <==> meet(b, a) is Ok,
{
    if let DefView::Multi(dims) = a {
        lemma_checked_dims(dims, readings);
    }
    if let DefView::Multi(dims) = b {
        lemma_checked_dims(dims, readings);
    }
    lemma_meet_symmetric(a, b);
}

} // verus!
