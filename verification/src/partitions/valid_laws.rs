//! Which keys a scheme accepts, which schemes can be made, and what a key stands for.
use vstd::prelude::*;
use crate::errors::FaultView;
use crate::moment::{formatted, max_at, min_at};
use crate::partitions::backfill_strategy::first_shared;
use crate::partitions::definition::DefView;
use crate::partitions::factory::{
    def_fault, dim_place_fault, dims_fault, first_fault, grid_fault, key_fault, key_faults,
    probe_end, probe_ticks, repeat_fault, repeat_faults, tick_fault, tick_faults,
};
use crate::partitions::grid::{grid_end, grid_ticks, page, GridView};
use crate::partitions::key::{sorted_dims, KeyView};
use crate::partitions::mapping::PartitionMapping;
use crate::partitions::mapping_make::{
    inner_name, nested_name, value_mapping, values_fault, values_map, MultiValue,
};
use crate::partitions::meet::dim_names;
use crate::partitions::display_laws::lemma_listed_in_order;
use crate::partitions::listing_laws::lifted;
use crate::partitions::members::{display_of, dims_display, members_of, members_of_all, ordered_dims};
use crate::partitions::product::{combo_count, lemma_combo_count, DimKeys};
use crate::partitions::product_laws::{lemma_combo_key_listed, named, picks};
use crate::partitions::readings::Readings;
use crate::partitions::rules::{
    batch_valid, dim_checks, dim_valid, key_valid, lemma_verdict_all, value_checks, verdict,
    window_checks, window_valid,
};
use crate::text::{joined, set_in_order, first_wanted, in_order, reserved_chars, texts};

verus! {

/// Whether a check accepts.
pub open spec fn accepts(r: Result<bool, FaultView>) -> bool {
    r == Ok::<bool, FaultView>(true)
}

/// Of checks that are made one after the other the first that does not accept decides.
pub proof fn lemma_first_refusal(v: Seq<Result<bool, FaultView>>)
    ensures
        !accepts(verdict(v)) ==> exists|i: int|
            0 <= i < v.len() && #[trigger] v[i] == verdict(v) && forall|j: int|
                0 <= j < i ==> accepts(#[trigger] v[j]),
        accepts(verdict(v)) <==> forall|i: int| 0 <= i < v.len() ==> accepts(#[trigger] v[i]),
    decreases v.len(),
{
    lemma_verdict_all(v);
    if v.len() > 0 && !accepts(verdict(v)) {
        let w = v.drop_last();
        lemma_first_refusal(w);
        if accepts(verdict(w)) {
            assert(v[v.len() - 1] == verdict(v));
            assert forall|j: int| 0 <= j < v.len() - 1 implies accepts(#[trigger] v[j]) by {
                assert(accepts(w[j]));
            }
        } else {
            let i = choose|i: int|
                0 <= i < w.len() && #[trigger] w[i] == verdict(w) && forall|j: int|
                    0 <= j < i ==> accepts(#[trigger] w[j]);
            assert(v[i] == verdict(v));
            assert forall|j: int| 0 <= j < i implies accepts(#[trigger] v[j]) by {
                assert(accepts(w[j]));
            }
        }
    }
    if accepts(verdict(v)) {
        assert forall|i: int| 0 <= i < v.len() implies accepts(#[trigger] v[i]) by {}
    }
    if forall|i: int| 0 <= i < v.len() ==> accepts(#[trigger] v[i]) {
        assert forall|i: int| 0 <= i < v.len() implies #[trigger] v[i] == Ok::<bool, FaultView>(
            true,
        ) by {
            assert(accepts(v[i]));
        }
    }
}

/// A window is a text that reads as a moment of the grid's span. On an interval it lies a
/// whole number of steps from the start; a text that does not read, or reads as a moment
/// outside the span, is refused without a fault.
pub proof fn lemma_window(
    g: GridView,
    end: int,
    key: Seq<char>,
    reading: Result<int, Seq<char>>,
)
    ensures
        ({
            let r = window_valid(g, end, key, reading);
            &&& reading is Err ==> r == Ok::<bool, FaultView>(false)
            &&& reading is Ok && !(g.start <= reading->Ok_0 < end) ==> r == Ok::<bool, FaultView>(
                false,
            )
            &&& reading is Ok && g.start <= reading->Ok_0 < end && g.interval is Some ==> r
                == Ok::<bool, FaultView>(
                g.interval->0.ns > 0 && (reading->Ok_0 - g.start) % g.interval->0.ns == 0,
            )
            &&& accepts(r) ==> reading is Ok && g.start <= reading->Ok_0 < end
        }),
{
}

/// A single key is accepted where it names something and each of its texts is a key: one
/// that a fixed list has, a window of the grid, or any text of a dynamic scheme. A scheme
/// of several dimensions accepts none.
pub proof fn lemma_single_valid(d: DefView, now: int, keys: Seq<Seq<char>>, readings: Readings)
    ensures
        ({
            let r = key_valid(d, now, KeyView::Single(keys), readings);
            &&& keys.len() == 0 ==> r == Ok::<bool, FaultView>(false)
            &&& d matches DefView::Static(valid) ==> r is Ok && (r->Ok_0 <==> keys.len() > 0
                && forall|i: int| 0 <= i < keys.len() ==> valid.contains(#[trigger] keys[i]))
            &&& d matches DefView::TimeWindow(g) ==> (accepts(r) <==> keys.len() > 0 && forall|
                i: int,
            |
                0 <= i < keys.len() ==> accepts(
                    window_valid(
                        g,
                        grid_end(g, now),
                        #[trigger] keys[i],
                        readings.of(keys[i], g.fmt),
                    ),
                ))
            &&& d is Dynamic ==> r == Ok::<bool, FaultView>(keys.len() > 0)
            &&& d is Multi ==> r == Ok::<bool, FaultView>(false)
        }),
{
    if let DefView::TimeWindow(g) = d {
        let c = window_checks(g, now, keys, readings);
        lemma_first_refusal(c);
        assert forall|i: int| 0 <= i < keys.len() implies #[trigger] c[i] == window_valid(
            g,
            grid_end(g, now),
            keys[i],
            readings.of(keys[i], g.fmt),
        ) by {}
        if forall|i: int|
            0 <= i < keys.len() ==> accepts(
                window_valid(g, grid_end(g, now), #[trigger] keys[i], readings.of(keys[i], g.fmt)),
            ) {
            assert forall|i: int| 0 <= i < c.len() implies accepts(#[trigger] c[i]) by {
                assert(accepts(
                    window_valid(g, grid_end(g, now), keys[i], readings.of(keys[i], g.fmt)),
                ));
            }
        }
        if forall|i: int| 0 <= i < c.len() ==> accepts(#[trigger] c[i]) {
            assert forall|i: int| 0 <= i < keys.len() implies accepts(
                window_valid(g, grid_end(g, now), #[trigger] keys[i], readings.of(keys[i], g.fmt)),
            ) by {
                assert(accepts(c[i]));
            }
        }
    }
}

/// Whether a key gives a dimension at least one value, each of them a key of the
/// dimension by itself.
pub open spec fn dimension_met(
    dim: (Seq<char>, DefView),
    now: int,
    m: Map<Seq<char>, Seq<Seq<char>>>,
    readings: Readings,
) -> bool {
    &&& m.dom().contains(dim.0)
    &&& m[dim.0].len() > 0
    &&& forall|j: int|
        0 <= j < m[dim.0].len() ==> accepts(
            key_valid(dim.1, now, KeyView::Single(seq![#[trigger] m[dim.0][j]]), readings),
        )
}

/// A key of several dimensions is accepted where it names as many dimensions as the scheme
/// has and each dimension of the scheme is met. Any other scheme refuses it.
pub proof fn lemma_multi_valid(
    d: DefView,
    now: int,
    m: Map<Seq<char>, Seq<Seq<char>>>,
    readings: Readings,
)
    ensures
        ({
            let r = key_valid(d, now, KeyView::Multi(m), readings);
            &&& !(d is Multi) ==> r == Ok::<bool, FaultView>(false)
            &&& d matches DefView::Multi(dims) ==> (accepts(r) <==> m.dom().len() == dims.len()
                && forall|i: int|
                0 <= i < dims.len() ==> dimension_met(#[trigger] dims[i], now, m, readings))
        }),
{
    if let DefView::Multi(dims) = d {
        let c = dim_checks(dims, now, m, readings);
        lemma_first_refusal(c);
        assert forall|i: int| 0 <= i < dims.len() implies accepts(#[trigger] c[i])
            == dimension_met(dims[i], now, m, readings) by {
            let dim = dims[i];
            assert(c[i] == dim_valid(dim, now, m, readings));
            if m.dom().contains(dim.0) && m[dim.0].len() > 0 {
                let v = value_checks(dim.1, now, m[dim.0], readings);
                lemma_first_refusal(v);
                assert forall|j: int| 0 <= j < v.len() implies #[trigger] v[j] == key_valid(
                    dim.1,
                    now,
                    KeyView::Single(seq![m[dim.0][j]]),
                    readings,
                ) by {}
                if dimension_met(dim, now, m, readings) {
                    assert forall|j: int| 0 <= j < v.len() implies accepts(#[trigger] v[j]) by {
                        assert(accepts(
                            key_valid(
                                dim.1,
                                now,
                                KeyView::Single(seq![m[dim.0][j]]),
                                readings,
                            ),
                        ));
                    }
                }
                if accepts(verdict(v)) {
                    assert forall|j: int| 0 <= j < m[dim.0].len() implies accepts(
                        key_valid(
                            dim.1,
                            now,
                            KeyView::Single(seq![#[trigger] m[dim.0][j]]),
                            readings,
                        ),
                    ) by {
                        assert(accepts(v[j]));
                    }
                }
            }
        }
        if forall|i: int|
            0 <= i < dims.len() ==> dimension_met(#[trigger] dims[i], now, m, readings) {
            assert forall|i: int| 0 <= i < c.len() implies accepts(#[trigger] c[i]) by {
                assert(dimension_met(dims[i], now, m, readings));
            }
        }
        if forall|i: int| 0 <= i < c.len() ==> accepts(#[trigger] c[i]) {
            assert forall|i: int| 0 <= i < dims.len() implies dimension_met(
                #[trigger] dims[i],
                now,
                m,
                readings,
            ) by {
                assert(accepts(c[i]));
            }
        }
    }
}

/// A batch is accepted where it has a member and each member is accepted by itself.
pub proof fn lemma_batch_valid(d: DefView, now: int, keys: Seq<KeyView>, readings: Readings)
    ensures
        accepts(key_valid(d, now, KeyView::Batch(keys), readings)) <==> keys.len() > 0 && forall|
            i: int,
        |
            0 <= i < keys.len() ==> accepts(key_valid(d, now, #[trigger] keys[i], readings)),
{
    lemma_members_valid(d, now, keys, readings);
}

proof fn lemma_members_valid(d: DefView, now: int, keys: Seq<KeyView>, readings: Readings)
    ensures
        accepts(batch_valid(d, now, keys, readings)) <==> forall|i: int|
            0 <= i < keys.len() ==> accepts(key_valid(d, now, #[trigger] keys[i], readings)),
    decreases keys.len(),
{
    if keys.len() > 0 {
        let w = keys.drop_last();
        lemma_members_valid(d, now, w, readings);
        if accepts(batch_valid(d, now, keys, readings)) {
            assert forall|i: int| 0 <= i < keys.len() implies accepts(
                key_valid(d, now, #[trigger] keys[i], readings),
            ) by {
                if i < w.len() {
                    assert(accepts(key_valid(d, now, w[i], readings)));
                }
            }
        }
        if forall|i: int|
            0 <= i < keys.len() ==> accepts(key_valid(d, now, #[trigger] keys[i], readings)) {
            assert forall|i: int| 0 <= i < w.len() implies accepts(
                key_valid(d, now, #[trigger] w[i], readings),
            ) by {
                assert(accepts(key_valid(d, now, keys[i], readings)));
            }
            assert(accepts(key_valid(d, now, keys[keys.len() - 1], readings)));
        }
    }
}

/// The members of a single key are its texts, each by itself; those of a batch are the
/// members of its keys, one key after the other.
pub proof fn lemma_members(texts: Seq<Seq<char>>, keys: Seq<KeyView>, k: KeyView)
    ensures
        members_of(KeyView::Single(texts)).len() == texts.len(),
        forall|i: int|
            0 <= i < texts.len() ==> #[trigger] members_of(KeyView::Single(texts))[i]
                == KeyView::Single(seq![texts[i]]),
        members_of(KeyView::Batch(Seq::empty())).len() == 0,
        members_of(KeyView::Batch(keys.push(k))) == members_of(KeyView::Batch(keys))
            + members_of(k),
{
    assert(keys.push(k).drop_last() =~= keys);
    assert(keys.push(k).last() == k);
    assert(members_of(KeyView::Batch(keys.push(k))) == members_of_all(keys.push(k)));
}

/// Of a list of faults the first counts.
pub proof fn lemma_first_fault(v: Seq<Option<FaultView>>)
    ensures
        match first_fault(v) {
            Some(f) => exists|i: int|
                0 <= i < v.len() && #[trigger] v[i] == Some(f) && forall|j: int|
                    0 <= j < i ==> (#[trigger] v[j]) is None,
            None => forall|i: int| 0 <= i < v.len() ==> (#[trigger] v[i]) is None,
        },
    decreases v.len(),
{
    if v.len() > 0 {
        let w = v.drop_last();
        lemma_first_fault(w);
        match first_fault(w) {
            Some(f) => {
                let i = choose|i: int|
                    0 <= i < w.len() && #[trigger] w[i] == Some(f) && forall|j: int|
                        0 <= j < i ==> (#[trigger] w[j]) is None;
                assert(v[i] == Some(f));
                assert forall|j: int| 0 <= j < i implies (#[trigger] v[j]) is None by {
                    assert(w[j] is None);
                }
            },
            None => {
                assert forall|j: int| 0 <= j < v.len() - 1 implies (#[trigger] v[j]) is None by {
                    assert(w[j] is None);
                }
                assert(v[v.len() - 1] == v.last());
            },
        }
    }
}

/// Whether a text can stand in a display form: it is not empty and holds none of the
/// characters by which the form is divided.
pub open spec fn displayable(t: Seq<char>) -> bool {
    t.len() > 0 && !t.contains('|') && !t.contains(',') && !t.contains('=')
}

proof fn lemma_reserved(t: Seq<char>)
    ensures
        first_wanted(t, reserved_chars()) is None <==> !t.contains('|') && !t.contains(',')
            && !t.contains('='),
{
    let r = reserved_chars();
    reveal_with_fuel(first_wanted, 4);
    assert(r[0] == '|' && r.drop_first()[0] == ',' && r.drop_first().drop_first()[0] == '=');
}

/// A scheme of fixed keys can be made where it has a key and each key is displayable.
pub proof fn lemma_static_made(keys: Seq<Seq<char>>, readings: Readings)
    ensures
        def_fault(DefView::Static(keys), readings) is None <==> keys.len() > 0 && forall|i: int|
            0 <= i < keys.len() ==> displayable(#[trigger] keys[i]),
{
    let v = key_faults(keys);
    lemma_first_fault(v);
    assert forall|i: int| 0 <= i < keys.len() implies ((#[trigger] v[i]) is None <==> displayable(
        keys[i],
    )) by {
        assert(v[i] == key_fault(keys[i]));
        lemma_reserved(keys[i]);
    }
    if first_fault(v) is None {
        assert forall|i: int| 0 <= i < keys.len() implies displayable(#[trigger] keys[i]) by {
            assert(v[i] is None);
        }
    }
    if forall|i: int| 0 <= i < keys.len() ==> displayable(#[trigger] keys[i]) {
        if first_fault(v) is Some {
            let i = choose|i: int| 0 <= i < v.len() && #[trigger] v[i] == Some(first_fault(v)->0);
            assert(displayable(keys[i]));
        }
    }
}

/// Whether a moment shows as a text that is displayable in a key and reads back as the
/// same moment.
pub open spec fn shows(t: int, fmt: Seq<char>, readings: Readings) -> bool {
    formatted(t, fmt) matches Some(key) && !key.contains('|') && !key.contains(',')
        && !key.contains('=') && readings.of(key, fmt) == Ok::<int, Seq<char>>(t)
}

/// A time scheme can be made where it has a schedule or an interval and not both, the
/// interval is a positive number of nanoseconds, a schedule starts on a whole second, and
/// each of the windows that are looked at shows.
pub proof fn lemma_grid_made(g: GridView, readings: Readings)
    ensures
        grid_fault(g, readings) is None <==> {
            &&& g.cron is Some <==> g.interval is None
            &&& g.interval matches Some(iv) ==> iv.finite && iv.ns > 0
            &&& g.cron is Some ==> g.start % 1_000_000_000 == 0
            &&& probe_ticks(g) is Ok
            &&& forall|i: int|
                0 <= i < probe_ticks(g)->Ok_0.len() ==> shows(
                    #[trigger] probe_ticks(g)->Ok_0[i],
                    g.fmt,
                    readings,
                )
        },
        def_fault(DefView::TimeWindow(g), readings) == grid_fault(g, readings),
{
    if let Ok(ts) = probe_ticks(g) {
        let v = tick_faults(ts, g.fmt, readings);
        lemma_first_fault(v);
        assert forall|i: int| 0 <= i < ts.len() implies ((#[trigger] v[i]) is None <==> shows(
            ts[i],
            g.fmt,
            readings,
        )) by {
            assert(v[i] == tick_fault(ts[i], g.fmt, readings));
            if let Some(key) = formatted(ts[i], g.fmt) {
                lemma_reserved(key);
            }
        }
        if first_fault(v) is None {
            assert forall|i: int| 0 <= i < ts.len() implies shows(
                #[trigger] ts[i],
                g.fmt,
                readings,
            ) by {
                assert(v[i] is None);
            }
        }
        if forall|i: int| 0 <= i < ts.len() ==> shows(#[trigger] ts[i], g.fmt, readings) {
            if first_fault(v) is Some {
                let i = choose|i: int|
                    0 <= i < v.len() && #[trigger] v[i] == Some(first_fault(v)->0);
                assert(shows(ts[i], g.fmt, readings));
            }
        }
    }
}

/// A scheme of several dimensions can be made where it has one, no name stands twice, and
/// each dimension has a displayable name and is itself a scheme of one dimension that can
/// be made.
pub proof fn lemma_multi_made(dims: Seq<(Seq<char>, DefView)>, readings: Readings)
    ensures
        def_fault(DefView::Multi(dims), readings) is None <==> {
            &&& dims.len() > 0
            &&& forall|i: int, j: int|
                0 <= i < j < dims.len() ==> (#[trigger] dims[i]).0 != (#[trigger] dims[j]).0
            &&& forall|i: int|
                0 <= i < dims.len() ==> displayable((#[trigger] dims[i]).0) && !(dims[i].1 is Multi)
                    && def_fault(dims[i].1, readings) is None
        },
{
    let names = dim_names(dims);
    let v = repeat_faults(names);
    lemma_first_fault(v);
    lemma_dims_made(dims, readings);
    if first_fault(v) is None {
        assert forall|i: int, j: int| 0 <= i < j < dims.len() implies (#[trigger] dims[i]).0 != (
        #[trigger] dims[j]).0 by {
            assert(v[j] == repeat_fault(names, j));
            if dims[i].0 == dims[j].0 {
                assert(names.take(j)[i] == names[j]);
                assert(names.take(j).contains(names[j]));
            }
        }
    }
    if forall|i: int, j: int|
        0 <= i < j < dims.len() ==> (#[trigger] dims[i]).0 != (#[trigger] dims[j]).0 {
        if first_fault(v) is Some {
            let j = choose|j: int| 0 <= j < v.len() && #[trigger] v[j] == Some(first_fault(v)->0);
            assert(v[j] == repeat_fault(names, j));
            let i = choose|i: int| 0 <= i < names.take(j).len() && names.take(j)[i] == names[j];
            assert(dims[i].0 == dims[j].0);
        }
    }
}

proof fn lemma_dims_made(dims: Seq<(Seq<char>, DefView)>, readings: Readings)
    ensures
        dims_fault(dims, readings) is None <==> forall|i: int|
            0 <= i < dims.len() ==> displayable((#[trigger] dims[i]).0) && !(dims[i].1 is Multi)
                && def_fault(dims[i].1, readings) is None,
    decreases dims.len(),
{
    if dims.len() > 0 {
        let w = dims.drop_last();
        lemma_dims_made(w, readings);
        lemma_reserved(dims.last().0);
        assert(dim_place_fault(dims.last()) is None <==> displayable(dims.last().0)
            && !(dims.last().1 is Multi));
        if dims_fault(dims, readings) is None {
            assert forall|i: int| 0 <= i < dims.len() implies displayable((#[trigger] dims[i]).0)
                && !(dims[i].1 is Multi) && def_fault(dims[i].1, readings) is None by {
                if i < w.len() {
                    assert(displayable(w[i].0));
                }
            }
        }
        if forall|i: int|
            0 <= i < dims.len() ==> displayable((#[trigger] dims[i]).0) && !(dims[i].1 is Multi)
                && def_fault(dims[i].1, readings) is None {
            assert forall|i: int| 0 <= i < w.len() implies displayable((#[trigger] w[i]).0) && !(
            w[i].1 is Multi) && def_fault(w[i].1, readings) is None by {
                assert(displayable(dims[i].0));
            }
            assert(displayable(dims[dims.len() - 1].0));
        }
    }
}

/// A dynamic scheme can be made under any name that is not empty.
pub proof fn lemma_dynamic_made(name: Seq<char>, readings: Readings)
    ensures
        def_fault(DefView::Dynamic(name), readings) is None <==> name.len() > 0,
{
}

/// A mapping by dimensions takes for each of its values a mapping that is not by
/// dimensions, for keys or to a subset; that of one dimension takes no mapping of one
/// dimension either.
pub proof fn lemma_values_made(s: Seq<(String, MultiValue)>, m: PartitionMapping)
    ensures
        values_fault(s) is None <==> forall|i: int|
            0 <= i < s.len() ==> !((#[trigger] s[i]).1 is Other) && !(value_mapping(
                s[i].1,
            ) is Multi || value_mapping(s[i].1) is ForKeys || value_mapping(s[i].1) is Subset),
        nested_name(m) is Some <==> m is Multi || m is ForKeys || m is Subset,
        inner_name(m) is Some <==> m is Multi || m is ForKeys || m is Subset || m is MultiToSingle,
    decreases s.len(),
{
    if s.len() > 0 {
        let w = s.drop_last();
        lemma_values_made(w, m);
        if values_fault(s) is None {
            assert forall|i: int| 0 <= i < s.len() implies !((#[trigger] s[i]).1 is Other) && !(
            value_mapping(s[i].1) is Multi || value_mapping(s[i].1) is ForKeys || value_mapping(
                s[i].1,
            ) is Subset) by {
                if i < w.len() {
                    assert(!(w[i].1 is Other));
                }
            }
        }
        if forall|i: int|
            0 <= i < s.len() ==> !((#[trigger] s[i]).1 is Other) && !(value_mapping(
                s[i].1,
            ) is Multi || value_mapping(s[i].1) is ForKeys || value_mapping(s[i].1) is Subset) {
            assert forall|i: int| 0 <= i < w.len() implies !((#[trigger] w[i]).1 is Other) && !(
            value_mapping(w[i].1) is Multi || value_mapping(w[i].1) is ForKeys || value_mapping(
                w[i].1,
            ) is Subset) by {
                assert(!(s[i].1 is Other));
            }
            assert(!(s[s.len() - 1].1 is Other));
        }
    }
}

/// Each value of a mapping by dimensions stands under its name: a pair names the dimension
/// that it takes, a mapping alone takes the dimension of its own name. The last value of a
/// name counts.
pub proof fn lemma_values_map(s: Seq<(String, MultiValue)>, name: String, v: MultiValue)
    ensures
        values_map(Seq::empty()).dom().len() == 0,
        forall|n: Seq<char>|
            n != name@ ==> (#[trigger] values_map(s.push((name, v))).dom().contains(n)
                <==> values_map(s).dom().contains(n)) && values_map(s.push((name, v)))[n]
                == values_map(s)[n],
        values_map(s.push((name, v))).dom().contains(name@),
        v matches MultiValue::Pair(d, m) ==> values_map(s.push((name, v)))[name@] == (d, m),
        v matches MultiValue::Mapping(m) ==> values_map(s.push((name, v)))[name@] == (name, m),
{
    assert(s.push((name, v)).drop_last() =~= s);
}

/// The values of each dimension of a key stand in order, whatever order they were given in.
pub proof fn lemma_sorted_dims(s: Seq<(String, Vec<String>)>, name: String, v: Vec<String>)
    ensures
        sorted_dims(Seq::empty()).dom().len() == 0,
        forall|n: Seq<char>|
            n != name@ ==> (#[trigger] sorted_dims(s.push((name, v))).dom().contains(n)
                <==> sorted_dims(s).dom().contains(n)) && sorted_dims(s.push((name, v)))[n]
                == sorted_dims(s)[n],
        sorted_dims(s.push((name, v))).dom().contains(name@),
        in_order(sorted_dims(s.push((name, v)))[name@]),
        sorted_dims(s.push((name, v)))[name@].to_multiset() == texts(v@).to_multiset(),
{
    assert(s.push((name, v)).drop_last() =~= s);
    crate::text::lemma_sorted_texts(texts(v@));
}

/// The first name of a list that another list has too.
pub proof fn lemma_first_shared(a: Seq<Seq<char>>, b: Seq<Seq<char>>)
    ensures
        match first_shared(a, b) {
            Some(k) => b.contains(k) && exists|i: int|
                0 <= i < a.len() && #[trigger] a[i] == k && forall|j: int|
                    0 <= j < i ==> !b.contains(#[trigger] a[j]),
            None => forall|i: int| 0 <= i < a.len() ==> !b.contains(#[trigger] a[i]),
        },
    decreases a.len(),
{
    if a.len() > 0 {
        let w = a.drop_last();
        lemma_first_shared(w, b);
        match first_shared(w, b) {
            Some(k) => {
                let i = choose|i: int|
                    0 <= i < w.len() && #[trigger] w[i] == k && forall|j: int|
                        0 <= j < i ==> !b.contains(#[trigger] w[j]);
                assert(a[i] == k);
                assert forall|j: int| 0 <= j < i implies !b.contains(#[trigger] a[j]) by {
                    assert(w[j] == a[j]);
                }
            },
            None => {
                assert forall|j: int| 0 <= j < a.len() - 1 implies !b.contains(
                    #[trigger] a[j],
                ) by {
                    assert(w[j] == a[j]);
                }
                assert(a[a.len() - 1] == a.last());
            },
        }
    }
}

/// The windows that are looked at when a time scheme is made: the first of them within four
/// years of the start and before the end. Where these are fewer than two, the first two of
/// all before the end.
pub proof fn lemma_probe(g: GridView)
    ensures
        ({
            let far = if g.start + 126_230_400_000_000_000 <= max_at() && min_at() <= g.start
                + 126_230_400_000_000_000 {
                g.start + 126_230_400_000_000_000
            } else {
                max_at()
            };
            let bound = if g.end is Some && g.end->0 <= far {
                g.end->0
            } else {
                far
            };
            let last = if g.end is Some {
                g.end->0
            } else {
                max_at()
            };
            let near = grid_ticks(g, bound);
            let all = grid_ticks(g, last);
            let r = probe_ticks(g);
            &&& near is Err ==> r is Err
            &&& near is Ok && 2 <= near->Ok_0.len() <= 1024 ==> r is Ok && r->Ok_0 == near->Ok_0
            &&& near is Ok && near->Ok_0.len() > 1024 ==> r is Ok && r->Ok_0 == near->Ok_0.take(1024)
            &&& near is Ok && near->Ok_0.len() < 2 ==> {
                &&& r is Ok <==> all is Ok
                &&& all is Ok && all->Ok_0.len() <= 2 ==> r->Ok_0 == all->Ok_0
                &&& all is Ok && all->Ok_0.len() > 2 ==> r->Ok_0 == all->Ok_0.take(2)
            }
        }),
{
    let bound = probe_end(g);
    let last = match g.end {
        Some(e) => e,
        None => max_at(),
    };
    if let Ok(near) = grid_ticks(g, bound) {
        if near.len() > 1024 {
            assert(page(near, 0, 1024) =~= near.take(1024));
        } else {
            assert(page(near, 0, 1024) =~= near);
        }
    }
    if let Ok(all) = grid_ticks(g, last) {
        if all.len() > 2 {
            assert(page(all, 0, 2) =~= all.take(2));
        } else {
            assert(page(all, 0, 2) =~= all);
        }
    }
}

/// The members of a key of several dimensions are the keys that give each of its dimensions
/// one of its values, and no other dimension any. There are as many as the numbers of values
/// multiply to.
pub proof fn lemma_multi_members(
    m: Map<Seq<char>, Seq<Seq<char>>>,
    pick: Map<Seq<char>, Seq<char>>,
)
    requires
        m.dom().finite(),
    ensures
        members_of(KeyView::Multi(m)).contains(KeyView::Multi(lifted(pick))) <==> {
            &&& forall|n: Seq<char>| #[trigger] pick.dom().contains(n) <==> m.dom().contains(n)
            &&& forall|n: Seq<char>| #[trigger] m.dom().contains(n) ==> m[n].contains(pick[n])
        },
        members_of(KeyView::Multi(m)).len() == combo_count(ordered_dims(m)),
{
    let dk = ordered_dims(m);
    let names = set_in_order(m.dom());
    lemma_listed_in_order(m.dom());
    lemma_combo_count(dk);
    assert forall|i: int, j: int| 0 <= i < j < dk.len() implies (#[trigger] dk[i]).0 != (
    #[trigger] dk[j]).0 by {
        assert(names[i] != names[j]);
    }
    lemma_combo_key_listed(dk, pick);
    assert forall|n: Seq<char>| #[trigger] named(dk, n) <==> m.dom().contains(n) by {
        assert(names.contains(n) <==> m.dom().contains(n));
        if named(dk, n) {
            let i = choose|i: int| 0 <= i < dk.len() && (#[trigger] dk[i]).0 == n;
            assert(names[i] == n);
        }
        if names.contains(n) {
            let i = choose|i: int| 0 <= i < names.len() && names[i] == n;
            assert(dk[i].0 == n);
        }
    }
    if picks(dk, pick) {
        assert forall|n: Seq<char>| #[trigger] pick.dom().contains(n) <==> m.dom().contains(n) by {
            assert(named(dk, n) <==> m.dom().contains(n));
        }
        assert forall|n: Seq<char>| #[trigger] m.dom().contains(n) implies m[n].contains(
            pick[n],
        ) by {
            assert(names.contains(n));
            let i = choose|i: int| 0 <= i < names.len() && names[i] == n;
            assert(dk[i].0 == n && dk[i].1 == m[n]);
        }
    }
    if (forall|n: Seq<char>| #[trigger] pick.dom().contains(n) <==> m.dom().contains(n)) && (
    forall|n: Seq<char>| #[trigger] m.dom().contains(n) ==> m[n].contains(pick[n])) {
        assert forall|n: Seq<char>| #[trigger] pick.dom().contains(n) <==> named(dk, n) by {
            assert(named(dk, n) <==> m.dom().contains(n));
        }
        assert forall|i: int| 0 <= i < dk.len() implies dk[i].1.contains(
            pick[(#[trigger] dk[i]).0],
        ) by {
            assert(names.contains(names[i]));
            assert(m.dom().contains(names[i]));
        }
    }
}

/// A single key shows as its first text. One of several dimensions shows them by name, in
/// order, each with its values.
pub proof fn lemma_shown(keys: Seq<Seq<char>>, m: Map<Seq<char>, Seq<Seq<char>>>)
    ensures
        keys.len() > 0 ==> display_of(KeyView::Single(keys)) == keys[0],
        display_of(KeyView::Multi(m)) == joined(
            set_in_order(m.dom()).map_values(
                |n: Seq<char>| n + "="@ + joined(m[n], ","@),
            ),
            "|"@,
        ),
{
    let names = set_in_order(m.dom());
    assert(dims_display(ordered_dims(m)) =~= names.map_values(
        |n: Seq<char>| n + "="@ + joined(m[n], ","@),
    ));
}

/// How many combinations there are: one of no dimension, and for each dimension as many
/// times more as it has values.
pub proof fn lemma_count_multiplies(dk: Seq<DimKeys>, d: DimKeys)
    ensures
        combo_count(Seq::empty()) == 1,
        combo_count(seq![d] + dk) == d.1.len() * combo_count(dk),
{
    assert((seq![d] + dk).drop_first() =~= dk);
    assert((seq![d] + dk)[0] == d);
}

} // verus!
