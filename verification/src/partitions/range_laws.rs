//! What holds of ranges of keys: which keys lie in one, which ranges fit a scheme, and to
//! which keys of the scheme one resolves.
use vstd::prelude::*;
use crate::errors::FaultView;
use crate::names::{lemma_pairs_dom, lemma_pairs_value, NameMap};
use crate::partitions::definition::{dimension_of, find_dim, lemma_find_dim, single_keys, DefView};
use crate::partitions::key::KeyView;
use crate::partitions::key_range::{
    against_fault, dim_in_range, dims_range_fault, explicit_fault, in_range, keys_in_range,
    range_fault, range_has, resolved, selected_dims, selected_keys, DimensionSelection,
    PartitionKeyRangeInner, PyPartitionKeyRange, SelView,
};
use crate::partitions::listing_laws::{distinct_dims, distinct_keyed, lifted};
use crate::partitions::meet::dim_names;
use crate::partitions::product::{combo_keys, combos};
use crate::partitions::product_laws::{lemma_combo_key_listed, named, picks};
use crate::partitions::readings::Readings;
use crate::partitions::relation_laws::lemma_selected_dims;
use crate::partitions::rules::single_valid;
use crate::text::text_at_most;

verus! {

/// A key lies in a range of static keys exactly where it stands at or behind the first and
/// at or before the last of them in the list; in a range of a grid where it reads as a
/// moment from that of the first to that of the last; without a scheme where its text lies
/// between theirs.
pub proof fn lemma_in_range(
    key: Seq<char>,
    from: Seq<char>,
    to: Seq<char>,
    def: Option<DefView>,
    readings: Readings,
)
    ensures
        def matches Some(DefView::Static(keys)) ==> (crate::partitions::key_set::no_repeats(keys)
            ==> (in_range(key, from, to, def, readings) <==> exists|i: int, j: int, k: int|
            0 <= i <= j <= k < keys.len() && #[trigger] keys[i] == from && #[trigger] keys[j] == key
                && #[trigger] keys[k] == to)),
        def matches Some(DefView::TimeWindow(g)) ==> (in_range(key, from, to, def, readings) <==> (
        readings.of(from, g.fmt) matches Ok(f) && (readings.of(key, g.fmt) matches Ok(k) && (
        readings.of(to, g.fmt) matches Ok(t) && f <= k <= t)))),
        def is None ==> (in_range(key, from, to, def, readings) <==> text_at_most(from, key)
            && text_at_most(key, to)),
{
    if let Some(DefView::Static(keys)) = def {
        if crate::partitions::key_set::no_repeats(keys) {
            if in_range(key, from, to, def, readings) {
                let i = choose|i: int| 0 <= i < keys.len() && keys[i] == from;
                let j = choose|i: int| 0 <= i < keys.len() && keys[i] == key;
                let k = choose|i: int| 0 <= i < keys.len() && keys[i] == to;
                crate::partitions::rules::lemma_place_in(keys, from, i);
                crate::partitions::rules::lemma_place_in(keys, key, j);
                crate::partitions::rules::lemma_place_in(keys, to, k);
                assert(keys[i] == from && keys[j] == key && keys[k] == to);
            }
            if exists|i: int, j: int, k: int|
                0 <= i <= j <= k < keys.len() && #[trigger] keys[i] == from && #[trigger] keys[j]
                    == key && #[trigger] keys[k] == to {
                let (i, j, k) = choose|i: int, j: int, k: int|
                    0 <= i <= j <= k < keys.len() && #[trigger] keys[i] == from
                        && #[trigger] keys[j] == key && #[trigger] keys[k] == to;
                crate::partitions::rules::lemma_place_in(keys, from, i);
                crate::partitions::rules::lemma_place_in(keys, key, j);
                crate::partitions::rules::lemma_place_in(keys, to, k);
            }
        }
    }
}

/// The ends of a range fit static keys exactly where both are among them, in their order; a
/// grid where both can be read, in order. Any ends fit another scheme.
pub proof fn lemma_ends_fit(
    def: DefView,
    from: Seq<char>,
    to: Seq<char>,
    suffix: Seq<char>,
    readings: Readings,
)
    ensures
        def matches DefView::Static(keys) ==> (crate::partitions::key_set::no_repeats(keys) ==> (
        range_fault(def, from, to, suffix, readings) is None <==> exists|i: int, k: int|
            0 <= i <= k < keys.len() && #[trigger] keys[i] == from && #[trigger] keys[k] == to)),
        def matches DefView::TimeWindow(g) ==> (range_fault(def, from, to, suffix, readings) is None
            <==> (readings.of(from, g.fmt) matches Ok(f) && (readings.of(to, g.fmt) matches Ok(t)
            && f <= t))),
        def is Multi || def is Dynamic ==> range_fault(def, from, to, suffix, readings) is None,
{
    if let DefView::Static(keys) = def {
        if crate::partitions::key_set::no_repeats(keys) {
            if range_fault(def, from, to, suffix, readings) is None {
                let i = choose|i: int| 0 <= i < keys.len() && keys[i] == from;
                let k = choose|i: int| 0 <= i < keys.len() && keys[i] == to;
                crate::partitions::rules::lemma_place_in(keys, from, i);
                crate::partitions::rules::lemma_place_in(keys, to, k);
                assert(keys[i] == from && keys[k] == to);
            }
            if exists|i: int, k: int|
                0 <= i <= k < keys.len() && #[trigger] keys[i] == from && #[trigger] keys[k] == to {
                let (i, k) = choose|i: int, k: int|
                    0 <= i <= k < keys.len() && #[trigger] keys[i] == from && #[trigger] keys[k]
                        == to;
                crate::partitions::rules::lemma_place_in(keys, from, i);
                crate::partitions::rules::lemma_place_in(keys, to, k);
            }
        }
    }
}

/// A key of one dimension lies in a range of one exactly where its first value does; a key
/// of several in a range of several where it has a value in each dimension that the range
/// names, and its first value there is among the listed keys or in the range of the
/// dimension. No key lies in a range of the other shape.
pub proof fn lemma_range_has(
    r: PyPartitionKeyRange,
    k: KeyView,
    def: Option<DefView>,
    readings: Readings,
)
    ensures
        match (r.inner, k) {
            (
                PartitionKeyRangeInner::Single { from_key, to_key },
                KeyView::Single(keys),
            ) => range_has(r, k, def, readings) <==> keys.len() > 0 && in_range(
                keys[0],
                from_key@,
                to_key@,
                def,
                readings,
            ),
            (PartitionKeyRangeInner::Multi { dimensions }, KeyView::Multi(m)) => range_has(
                r,
                k,
                def,
                readings,
            ) <==> forall|i: int|
                0 <= i < dimensions.entries@.len() ==> value_selected(
                    #[trigger] dimensions.entries@[i],
                    m,
                    def,
                    readings,
                ),
            _ => !range_has(r, k, def, readings),
        },
{
    if let (PartitionKeyRangeInner::Multi { dimensions }, KeyView::Multi(m)) = (r.inner, k) {
        let e = dimensions.entries@;
        assert forall|i: int| 0 <= i < e.len() implies value_selected(
            #[trigger] e[i],
            m,
            def,
            readings,
        ) == dim_in_range(e[i].0@, e[i].1@, m, def, readings) by {}
        if forall|i: int| 0 <= i < e.len() ==> value_selected(#[trigger] e[i], m, def, readings) {
            assert forall|i: int| 0 <= i < e.len() implies dim_in_range(
                (#[trigger] e[i]).0@,
                e[i].1@,
                m,
                def,
                readings,
            ) by {
                assert(value_selected(e[i], m, def, readings));
            }
        }
    }
}

/// Whether a key has a value in a dimension of a range, and the range selects the first.
pub open spec fn value_selected(
    e: (String, DimensionSelection),
    m: Map<Seq<char>, Seq<Seq<char>>>,
    def: Option<DefView>,
    readings: Readings,
) -> bool {
    &&& m.dom().contains(e.0@)
    &&& m[e.0@].len() > 0
    &&& match e.1 {
        DimensionSelection::Keys(keys) => keys@.contains(m[e.0@][0]),
        DimensionSelection::Range { from_key, to_key } => in_range(
            m[e.0@][0],
            from_key@,
            to_key@,
            match def {
                Some(DefView::Multi(dims)) => find_dim(dims, e.0@),
                _ => None,
            },
            readings,
        ),
    }
}

/// The keys of a list that lie in a range keep their order, and each occurs as often as in
/// the list.
pub proof fn lemma_range_order(
    v: Seq<Seq<char>>,
    from: Seq<char>,
    to: Seq<char>,
    def: DefView,
    readings: Readings,
)
    ensures
        keys_in_range(v, from, to, def, readings) == v.filter(
            |k: Seq<char>| in_range(k, from, to, Some(def), readings),
        ),
    decreases v.len(),
{
    reveal(Seq::filter);
    if v.len() > 0 {
        lemma_range_order(v.drop_last(), from, to, def, readings);
    }
}

/// A range of single keys that fits a scheme resolves to its keys in the range, in the order
/// of the scheme; to a fault where it does not fit, the keys cannot be listed, or none of
/// them lies in the range.
pub proof fn lemma_single_range(
    from_key: String,
    to_key: String,
    def: DefView,
    now: int,
    readings: Readings,
)
    ensures
        ({
            let r = PyPartitionKeyRange {
                inner: PartitionKeyRangeInner::Single { from_key, to_key },
            };
            let got = resolved(r, def, now, readings);
            let p = |k: Seq<char>| in_range(k, from_key@, to_key@, Some(def), readings);
            &&& got is Ok <==> range_fault(
                def,
                from_key@,
                to_key@,
                Seq::empty(),
                readings,
            ) is None && (single_keys(def, now) matches Ok(all) && all.filter(p).len() > 0)
            &&& got matches Ok(ks) ==> ks == single_keys(def, now)->Ok_0.filter(p).map_values(
                |k: Seq<char>| KeyView::Single(seq![k]),
            )
        }),
{
    let p = |k: Seq<char>| in_range(k, from_key@, to_key@, Some(def), readings);
    if let Ok(all) = single_keys(def, now) {
        lemma_range_order(all, from_key@, to_key@, def, readings);
    }
    let r = PyPartitionKeyRange { inner: PartitionKeyRangeInner::Single { from_key, to_key } };
    if let Ok(ks) = resolved(r, def, now, readings) {
        assert(ks =~= single_keys(def, now)->Ok_0.filter(p).map_values(
            |k: Seq<char>| KeyView::Single(seq![k]),
        ));
    }
}

/// What a range selects of a dimension: all of its keys where it does not name it; the keys
/// of the dimension in the range, in their order, where it gives a range that fits and holds
/// any; the listed keys, all of them and in their order, where it lists keys that are all
/// keys of the dimension. Else there is a fault.
pub proof fn lemma_selected(
    dim: (Seq<char>, DefView),
    sels: Map<Seq<char>, DimensionSelection>,
    now: int,
    readings: Readings,
)
    ensures
        ({
            let got = selected_keys(dim, sels, now, readings);
            let all = single_keys(dim.1, now);
            &&& !sels.dom().contains(dim.0) ==> (got is Ok <==> all is Ok) && (got matches Ok(ks)
                ==> ks == all->Ok_0)
            &&& sels.dom().contains(dim.0) ==> (sels[dim.0] matches DimensionSelection::Range {
                from_key,
                to_key,
            } ==> {
                let p = |k: Seq<char>| in_range(k, from_key@, to_key@, Some(dim.1), readings);
                &&& got is Ok <==> range_fault(
                    dim.1,
                    from_key@,
                    to_key@,
                    Seq::empty(),
                    readings,
                ) is None && all is Ok && all->Ok_0.filter(p).len() > 0
                &&& got matches Ok(ks) ==> ks == all->Ok_0.filter(p)
            })
            &&& sels.dom().contains(dim.0) ==> (sels[dim.0] matches DimensionSelection::Keys(
                keys,
            ) ==> {
                &&& got is Ok <==> forall|i: int|
                    0 <= i < keys@.len() ==> single_valid(
                        dim.1,
                        now,
                        seq![#[trigger] keys@[i]],
                        readings,
                    ) == Ok::<bool, FaultView>(true)
                &&& got matches Ok(ks) ==> ks == keys@
            })
        }),
{
    if sels.dom().contains(dim.0) {
        match sels[dim.0] {
            DimensionSelection::Range { from_key, to_key } => {
                if let Ok(all) = single_keys(dim.1, now) {
                    lemma_range_order(all, from_key@, to_key@, dim.1, readings);
                }
                lemma_fault_suffix(
                    dim.1,
                    from_key@,
                    to_key@,
                    crate::partitions::key_range::dim_suffix(Some(dim.0)),
                    readings,
                );
            },
            DimensionSelection::Keys(keys) => {
                lemma_explicit(keys@, dim, now, readings);
            },
        }
    }
}

proof fn lemma_fault_suffix(
    def: DefView,
    from: Seq<char>,
    to: Seq<char>,
    suffix: Seq<char>,
    readings: Readings,
)
    ensures
        range_fault(def, from, to, suffix, readings) is None <==> range_fault(
            def,
            from,
            to,
            Seq::empty(),
            readings,
        ) is None,
{
}

proof fn lemma_explicit(
    keys: Seq<Seq<char>>,
    dim: (Seq<char>, DefView),
    now: int,
    readings: Readings,
)
    ensures
        explicit_fault(keys, dim, now, readings) is None <==> forall|i: int|
            0 <= i < keys.len() ==> single_valid(
                dim.1,
                now,
                seq![#[trigger] keys[i]],
                readings,
            ) == Ok::<bool, FaultView>(true),
    decreases keys.len(),
{
    if keys.len() > 0 {
        let w = keys.drop_last();
        let n = keys.len() - 1;
        lemma_explicit(w, dim, now, readings);
        assert(keys.last() == keys[n]);
        if explicit_fault(keys, dim, now, readings) is None {
            assert forall|i: int| 0 <= i < keys.len() implies single_valid(
                dim.1,
                now,
                seq![#[trigger] keys[i]],
                readings,
            ) == Ok::<bool, FaultView>(true) by {
                if i < n {
                    assert(w[i] == keys[i]);
                }
            }
        }
        if forall|i: int|
            0 <= i < keys.len() ==> single_valid(
                dim.1,
                now,
                seq![#[trigger] keys[i]],
                readings,
            ) == Ok::<bool, FaultView>(true) {
            assert forall|i: int| 0 <= i < w.len() implies single_valid(
                dim.1,
                now,
                seq![#[trigger] w[i]],
                readings,
            ) == Ok::<bool, FaultView>(true) by {
                assert(w[i] == keys[i]);
            }
            assert(single_valid(dim.1, now, seq![keys[n]], readings) == Ok::<bool, FaultView>(
                true,
            ));
        }
    }
}

/// Whether a map takes one key of each dimension and nothing else: a listed one where the
/// range lists keys of the dimension, else one of the keys of the dimension itself.
pub open spec fn one_of_each(
    c: Map<Seq<char>, Seq<char>>,
    dims: Seq<(Seq<char>, DefView)>,
    sels: Map<Seq<char>, DimensionSelection>,
    now: int,
) -> bool {
    &&& forall|n: Seq<char>| #[trigger] c.dom().contains(n) <==> dim_names(dims).contains(n)
    &&& forall|i: int|
        0 <= i < dims.len() ==> {
            let name = (#[trigger] dims[i]).0;
            if sels.dom().contains(name) && sels[name] is Keys {
                sels[name]->Keys_0@.contains(c[name])
            } else {
                single_keys(dims[i].1, now)->Ok_0.contains(c[name])
            }
        }
}

/// A range over several dimensions resolves to exactly the keys that take one key of each
/// dimension and that it contains: each of them is among what it resolves to, and what it
/// resolves to is one of them.
pub proof fn lemma_multi_range_whole(
    dimensions: NameMap<DimensionSelection>,
    dims: Seq<(Seq<char>, DefView)>,
    now: int,
    readings: Readings,
    c: Map<Seq<char>, Seq<char>>,
)
    requires
        dimensions.wf(),
        distinct_dims(dims),
        forall|i: int|
            0 <= i < dimensions.entries@.len() ==> dim_names(dims).contains(
                (#[trigger] dimensions.entries@[i]).0@,
            ),
        resolved(
            PyPartitionKeyRange { inner: PartitionKeyRangeInner::Multi { dimensions } },
            DefView::Multi(dims),
            now,
            readings,
        ) is Ok,
    ensures
        ({
            let r = PyPartitionKeyRange { inner: PartitionKeyRangeInner::Multi { dimensions } };
            let k = KeyView::Multi(c.map_values(|v: Seq<char>| seq![v]));
            resolved(r, DefView::Multi(dims), now, readings)->Ok_0.contains(k) <==> one_of_each(
                c,
                dims,
                dimensions@,
                now,
            ) && range_has(r, k, Some(DefView::Multi(dims)), readings)
        }),
{
    let r = PyPartitionKeyRange { inner: PartitionKeyRangeInner::Multi { dimensions } };
    let def = DefView::Multi(dims);
    let sels = dimensions@;
    let m = lifted(c);
    let k = KeyView::Multi(m);
    let dk = selected_dims(dims, sels, now, readings)->Ok_0;
    lemma_selected_dims(dims, sels, now, readings);
    assert(distinct_keyed(dk)) by {
        assert forall|i: int, j: int| 0 <= i < j < dk.len() implies (#[trigger] dk[i]).0 != (
        #[trigger] dk[j]).0 by {
            assert(dims[i].0 != dims[j].0);
        }
    }
    lemma_combo_key_listed(dk, c);
    assert(resolved(r, def, now, readings)->Ok_0 == combo_keys(combos(dk)));
    assert(m.dom() =~= c.dom());
    let s = dimensions.entries@;
    assert forall|n: Seq<char>| #[trigger] named(dk, n) <==> dim_names(dims).contains(n) by {
        if named(dk, n) {
            let i = choose|i: int| 0 <= i < dk.len() && (#[trigger] dk[i]).0 == n;
            assert(dim_names(dims)[i] == n);
        }
        if dim_names(dims).contains(n) {
            let i = choose|i: int| 0 <= i < dim_names(dims).len() && dim_names(dims)[i] == n;
            assert(dk[i].0 == n);
        }
    }
    // One dimension: what the range selects of it.
    assert forall|j: int| 0 <= j < dims.len() && c.dom().contains((#[trigger] dims[j]).0) implies (
    dk[j].1.contains(c[dims[j].0]) <==> taken_in(dims[j], sels, now, c[dims[j].0]) && admits(
        dims[j],
        sels,
        c[dims[j].0],
        readings,
    )) by {
        assert(dk[j].0 == dims[j].0);
        lemma_selected(dims[j], sels, now, readings);
        if sels.dom().contains(dims[j].0) {
            if let DimensionSelection::Range { from_key, to_key } = sels[dims[j].0] {
                let all = single_keys(dims[j].1, now)->Ok_0;
                let p = |x: Seq<char>|
                    in_range(x, from_key@, to_key@, Some(dims[j].1), readings);
                lemma_filter_has(all, p, c[dims[j].0]);
            }
        }
    }
    if picks(dk, c) {
        assert forall|n: Seq<char>| #[trigger] c.dom().contains(n) <==> dim_names(dims).contains(
            n,
        ) by {
            assert(named(dk, n) <==> dim_names(dims).contains(n));
        }
        assert forall|i: int| 0 <= i < dims.len() implies taken_in(
            #[trigger] dims[i],
            sels,
            now,
            c[dims[i].0],
        ) && admits(dims[i], sels, c[dims[i].0], readings) by {
            assert(dk[i].0 == dims[i].0);
            assert(dim_names(dims)[i] == dims[i].0);
            assert(dim_names(dims).contains(dims[i].0));
            assert(c.dom().contains(dims[i].0));
            assert(dk[i].1.contains(c[dk[i].0]));
        }
        assert(one_of_each(c, dims, sels, now));
        assert forall|i: int| 0 <= i < s.len() implies dim_in_range(
            (#[trigger] s[i]).0@,
            s[i].1@,
            m,
            Some(def),
            readings,
        ) by {
            let j = lemma_entry_dim(dimensions, dims, i);
            assert(c.dom().contains(dims[j].0)) by {
                assert(dim_names(dims)[j] == dims[j].0);
            }
            assert(admits(dims[j], sels, c[dims[j].0], readings));
            assert(m[dims[j].0] =~= seq![c[dims[j].0]]);
        }
    }
    if one_of_each(c, dims, sels, now) && range_has(r, k, Some(def), readings) {
        assert(picks(dk, c)) by {
            assert forall|n: Seq<char>| #[trigger] c.dom().contains(n) <==> named(dk, n) by {
                assert(named(dk, n) <==> dim_names(dims).contains(n));
            }
            assert forall|j: int| 0 <= j < dk.len() implies dk[j].1.contains(
                c[(#[trigger] dk[j]).0],
            ) by {
                assert(dk[j].0 == dims[j].0);
                assert(dim_names(dims)[j] == dims[j].0);
                assert(dim_names(dims).contains(dims[j].0));
                assert(c.dom().contains(dims[j].0));
                assert(taken_in(dims[j], sels, now, c[dims[j].0]));
                if sels.dom().contains(dims[j].0) {
                    lemma_pairs_dom(s, dims[j].0);
                    let i = choose|i: int|
                        0 <= i < s.len() && (#[trigger] s[i]).0@ == dims[j].0;
                    assert forall|x: int| i < x < s.len() implies (#[trigger] s[x]).0@
                        != s[i].0@ by {
                        assert(s[i].0@ != s[x].0@);
                    }
                    lemma_pairs_value(s, i);
                    assert(dim_in_range(s[i].0@, s[i].1@, m, Some(def), readings));
                    assert(m[dims[j].0] =~= seq![c[dims[j].0]]);
                    let y = lemma_entry_dim(dimensions, dims, i);
                    if y < j {
                        assert(dims[y].0 != dims[j].0);
                    }
                    if j < y {
                        assert(dims[j].0 != dims[y].0);
                    }
                    assert(admits(dims[j], sels, c[dims[j].0], readings));
                }
            }
        }
    }
}

/// Whether a key is one of those among which a range chooses in a dimension: a listed one
/// where it lists keys, else one of the keys of the dimension itself.
spec fn taken_in(
    dim: (Seq<char>, DefView),
    sels: Map<Seq<char>, DimensionSelection>,
    now: int,
    v: Seq<char>,
) -> bool {
    if sels.dom().contains(dim.0) && sels[dim.0] is Keys {
        sels[dim.0]->Keys_0@.contains(v)
    } else {
        single_keys(dim.1, now)->Ok_0.contains(v)
    }
}

/// Whether a range admits a key in a dimension.
spec fn admits(
    dim: (Seq<char>, DefView),
    sels: Map<Seq<char>, DimensionSelection>,
    v: Seq<char>,
    readings: Readings,
) -> bool {
    sels.dom().contains(dim.0) ==> match sels[dim.0]@ {
        SelView::Range(from, to) => in_range(v, from, to, Some(dim.1), readings),
        SelView::Keys(keys) => keys.contains(v),
    }
}

proof fn lemma_filter_has(s: Seq<Seq<char>>, p: spec_fn(Seq<char>) -> bool, k: Seq<char>)
    ensures
        s.filter(p).contains(k) <==> s.contains(k) && p(k),
    decreases s.len(),
{
    reveal(Seq::filter);
    if s.len() > 0 {
        let w = s.drop_last();
        lemma_filter_has(w, p, k);
        let u = w.filter(p);
        let r = s.filter(p);
        if r.contains(k) {
            let i = choose|i: int| 0 <= i < r.len() && r[i] == k;
            if i < u.len() {
                assert(u[i] == k);
                assert(u.contains(k));
                let j = choose|j: int| 0 <= j < w.len() && w[j] == k;
                assert(s[j] == k);
            } else {
                assert(s[s.len() - 1] == k);
            }
        }
        if s.contains(k) && p(k) {
            let j = choose|j: int| 0 <= j < s.len() && s[j] == k;
            if j < w.len() {
                assert(w[j] == k);
                assert(w.contains(k));
                let i = choose|i: int| 0 <= i < u.len() && u[i] == k;
                assert(r[i] == k);
            } else {
                assert(r[u.len() as int] == k);
            }
        }
    }
}

/// The dimension that an entry of a range names.
proof fn lemma_entry_dim(
    dimensions: NameMap<DimensionSelection>,
    dims: Seq<(Seq<char>, DefView)>,
    i: int,
) -> (j: int)
    requires
        dimensions.wf(),
        distinct_dims(dims),
        0 <= i < dimensions.entries@.len(),
        dim_names(dims).contains(dimensions.entries@[i].0@),
    ensures
        0 <= j < dims.len(),
        dims[j].0 == dimensions.entries@[i].0@,
        dimension_of(DefView::Multi(dims), dims[j].0) == Some(dims[j].1),
        dimensions@.dom().contains(dims[j].0),
        dimensions@[dims[j].0] == dimensions.entries@[i].1,
{
    let s = dimensions.entries@;
    let name = s[i].0@;
    let j = choose|j: int| 0 <= j < dim_names(dims).len() && dim_names(dims)[j] == name;
    assert(dims[j].0 == name);
    assert forall|x: int| 0 <= x < j implies (#[trigger] dims[x]).0 != name by {
        assert(dims[x].0 != dims[j].0);
    }
    lemma_find_dim(dims, name, j);
    assert forall|x: int| i < x < s.len() implies (#[trigger] s[x]).0@ != s[i].0@ by {
        assert(s[i].0@ != s[x].0@);
    }
    lemma_pairs_value(s, i);
    j
}

/// A range of one dimension fits a scheme where its ends do; a range of several fits one of
/// several where, in each dimension that both have and of which it gives a range, the ends
/// do. A range of several dimensions fits any scheme of one.
pub proof fn lemma_range_fits(
    dimensions: NameMap<DimensionSelection>,
    dims: Seq<(Seq<char>, DefView)>,
    readings: Readings,
)
    ensures
        ({
            let r = PyPartitionKeyRange { inner: PartitionKeyRangeInner::Multi { dimensions } };
            let s = dimensions.entries@;
            against_fault(r, DefView::Multi(dims), readings) is None <==> forall|i: int|
                0 <= i < s.len() ==> ends_fit_dim(#[trigger] s[i], dims, readings)
        }),
{
    lemma_dims_fit(dimensions.entries@, dims, readings);
}

/// Whether what a range says of a dimension fits it.
pub open spec fn ends_fit_dim(
    e: (String, DimensionSelection),
    dims: Seq<(Seq<char>, DefView)>,
    readings: Readings,
) -> bool {
    e.1 matches DimensionSelection::Range { from_key, to_key } ==> (find_dim(
        dims,
        e.0@,
    ) matches Some(d) ==> range_fault(d, from_key@, to_key@, Seq::empty(), readings) is None)
}

proof fn lemma_dims_fit(
    s: Seq<(String, DimensionSelection)>,
    dims: Seq<(Seq<char>, DefView)>,
    readings: Readings,
)
    ensures
        dims_range_fault(s, dims, readings) is None <==> forall|i: int|
            0 <= i < s.len() ==> ends_fit_dim(#[trigger] s[i], dims, readings),
    decreases s.len(),
{
    if s.len() > 0 {
        let w = s.drop_last();
        let n = s.len() - 1;
        lemma_dims_fit(w, dims, readings);
        assert(s.last() == s[n]);
        if let DimensionSelection::Range { from_key, to_key } = s[n].1 {
            if let Some(d) = find_dim(dims, s[n].0@) {
                lemma_fault_suffix(
                    d,
                    from_key@,
                    to_key@,
                    crate::partitions::key_range::dim_suffix(Some(s[n].0@)),
                    readings,
                );
            }
        }
        if dims_range_fault(s, dims, readings) is None {
            assert forall|i: int| 0 <= i < s.len() implies ends_fit_dim(
                #[trigger] s[i],
                dims,
                readings,
            ) by {
                if i < n {
                    assert(w[i] == s[i]);
                }
            }
        }
        if forall|i: int| 0 <= i < s.len() ==> ends_fit_dim(#[trigger] s[i], dims, readings) {
            assert forall|i: int| 0 <= i < w.len() implies ends_fit_dim(
                #[trigger] w[i],
                dims,
                readings,
            ) by {
                assert(w[i] == s[i]);
            }
            assert(ends_fit_dim(s[n], dims, readings));
        }
    }
}

} // verus!
