//! What holds of a dependency edge whose mapping was found valid, and which edges are.
use vstd::prelude::*;
use crate::errors::FaultView;
use crate::names::{pair_names, NameMap};
use crate::partitions::definition::{find_dim, single_keys, DefView};
use crate::partitions::facts::KeyFacts;
use crate::partitions::grid::GridView;
use crate::partitions::grid_compat::{compat_fault, first_off_grid, on_grid, trial_ticks};
use crate::partitions::key_range::against_fault;
use crate::partitions::mapping::{BoxedMapping, PartitionKeySelector, PartitionMapping};
use crate::partitions::mapping_errors::MapErrView;
use crate::partitions::mapping_rules::{
    edge_fault, entries_fault, lemma_outside, outside, pair_fault, plain_keys, same_dims_fault,
    selectors_fault, target_texts, targets,
};
use crate::partitions::meet::{dim_names, last_dim, same_members};
use crate::partitions::rules::key_valid;
use crate::text::texts;

verus! {

/// The texts of a list that another has not are those of the list, in its order.
pub proof fn lemma_outside_order(a: Seq<Seq<char>>, b: Seq<Seq<char>>)
    ensures
        outside(a, b) == a.filter(|k: Seq<char>| !b.contains(k)),
    decreases a.len(),
{
    reveal(Seq::filter);
    if a.len() > 0 {
        lemma_outside_order(a.drop_last(), b);
    }
}

/// An Identity mapping is valid between schemes of one kind alone: static ones where every
/// downstream key is an upstream key, dynamic ones of one name, grids whose keys fit, and
/// schemes of several dimensions of the same names, each of them valid by itself.
pub proof fn lemma_identity_edge(down: DefView, up: DefView, now: int)
    ensures
        ({
            let fault = pair_fault(PartitionMapping::Identity, down, up, now);
            match (down, up) {
                (DefView::Static(d), DefView::Static(u)) => fault is None <==> forall|
                    k: Seq<char>,
                |
                    #[trigger] d.contains(k) ==> u.contains(k),
                (DefView::Dynamic(d), DefView::Dynamic(u)) => fault is None <==> d == u,
                (DefView::TimeWindow(d), DefView::TimeWindow(u)) => fault is None <==> compat_fault(
                    "Identity"@,
                    d,
                    u,
                ) is None,
                (DefView::Multi(d), DefView::Multi(u)) => fault is None <==> (forall|n: Seq<char>|
                    #[trigger] dim_names(d).contains(n) <==> dim_names(u).contains(n)) && forall|
                    i: int,
                |
                    0 <= i < d.len() ==> pair_fault(
                        PartitionMapping::Identity,
                        (#[trigger] d[i]).1,
                        last_dim(u, d[i].0)->0,
                        now,
                    ) is None,
                _ => fault is Some,
            }
        }),
{
    match (down, up) {
        (DefView::Static(d), DefView::Static(u)) => {
            lemma_outside(d, u);
        },
        (DefView::Multi(d), DefView::Multi(u)) => {
            if same_members(dim_names(d), dim_names(u)) {
                assert forall|i: int| 0 <= i < d.len() implies last_dim(
                    u,
                    (#[trigger] d[i]).0,
                ) is Some by {
                    assert(dim_names(d)[i] == d[i].0);
                    assert(dim_names(d).contains(d[i].0));
                    lemma_last_dim_found(u, d[i].0);
                }
                lemma_same_dims(PartitionMapping::Identity, d, u, now);
            }
        },
        _ => {},
    }
}

/// A dimension that a list names is found: the last of its name.
pub proof fn lemma_last_dim_found(dims: Seq<(Seq<char>, DefView)>, name: Seq<char>)
    ensures
        last_dim(dims, name) is Some <==> dim_names(dims).contains(name),
        last_dim(dims, name) matches Some(d) ==> exists|i: int|
            0 <= i < dims.len() && (#[trigger] dims[i]).0 == name && dims[i].1 == d && forall|
                j: int,
            |
                i < j < dims.len() ==> (#[trigger] dims[j]).0 != name,
    decreases dims.len(),
{
    let names = dim_names(dims);
    if dims.len() > 0 {
        let w = dims.drop_last();
        lemma_last_dim_found(w, name);
        assert(names[dims.len() - 1] == dims.last().0);
        if dims.last().0 == name {
            assert(dims[dims.len() - 1].0 == name);
            assert(names.contains(name));
        } else {
            if dim_names(w).contains(name) {
                let i = choose|i: int| 0 <= i < dim_names(w).len() && dim_names(w)[i] == name;
                assert(names[i] == name);
                assert(names.contains(name));
            }
            if names.contains(name) {
                let i = choose|i: int| 0 <= i < names.len() && names[i] == name;
                assert(dim_names(w)[i] == name);
                assert(dim_names(w).contains(name));
            }
            if let Some(d) = last_dim(w, name) {
                let i = choose|i: int|
                    0 <= i < w.len() && (#[trigger] w[i]).0 == name && w[i].1 == d && forall|
                        j: int,
                    |
                        i < j < w.len() ==> (#[trigger] w[j]).0 != name;
                assert(dims[i].0 == name && dims[i].1 == d);
                assert forall|j: int| i < j < dims.len() implies (#[trigger] dims[j]).0 != name by {
                    if j < w.len() {
                        assert(w[j].0 != name);
                    }
                }
            }
        }
    }
}

proof fn lemma_same_dims(
    m: PartitionMapping,
    down: Seq<(Seq<char>, DefView)>,
    up: Seq<(Seq<char>, DefView)>,
    now: int,
)
    requires
        forall|i: int| 0 <= i < down.len() ==> last_dim(up, (#[trigger] down[i]).0) is Some,
    ensures
        same_dims_fault(m, down, up, now) is None <==> forall|i: int|
            0 <= i < down.len() ==> pair_fault(
                m,
                (#[trigger] down[i]).1,
                last_dim(up, down[i].0)->0,
                now,
            ) is None,
    decreases down.len(),
{
    if down.len() > 0 {
        let w = down.drop_last();
        let n = down.len() - 1;
        assert forall|i: int| 0 <= i < w.len() implies last_dim(
            up,
            (#[trigger] w[i]).0,
        ) is Some by {
            assert(w[i] == down[i]);
        }
        lemma_same_dims(m, w, up, now);
        assert(down.last() == down[n]);
        assert(last_dim(up, down[n].0) is Some);
        if same_dims_fault(m, down, up, now) is None {
            assert forall|i: int| 0 <= i < down.len() implies pair_fault(
                m,
                (#[trigger] down[i]).1,
                last_dim(up, down[i].0)->0,
                now,
            ) is None by {
                if i < n {
                    assert(w[i] == down[i]);
                }
            }
        } else if same_dims_fault(m, w, up, now) is Some {
            let i = choose|i: int|
                0 <= i < w.len() && !(pair_fault(
                    m,
                    (#[trigger] w[i]).1,
                    last_dim(up, w[i].0)->0,
                    now,
                ) is None);
            assert(down[i] == w[i]);
        }
    }
}

/// A TimeWindow mapping is valid between two grids whose keys fit, and nothing else.
pub proof fn lemma_time_window_edge(offset: i64, down: DefView, up: DefView, now: int)
    ensures
        pair_fault(PartitionMapping::TimeWindow { offset }, down, up, now) is None <==> (
        down matches DefView::TimeWindow(d) && (up matches DefView::TimeWindow(u) && compat_fault(
            "time_window"@,
            d,
            u,
        ) is None)),
{
}

/// A Static mapping is valid exactly where the keys of both sides can be listed, each key
/// that it maps is a downstream key, and each that it maps to an upstream key.
pub proof fn lemma_static_edge(mapping: NameMap<String>, down: DefView, up: DefView, now: int)
    ensures
        pair_fault(PartitionMapping::Static { mapping }, down, up, now) is None <==> ({
            let s = mapping.entries@;
            &&& plain_keys(down, now) is Ok
            &&& plain_keys(up, now) is Ok
            &&& forall|i: int|
                0 <= i < s.len() ==> plain_keys(down, now)->Ok_0.contains((#[trigger] s[i]).0@)
                    && plain_keys(up, now)->Ok_0.contains(s[i].1@)
        }),
{
    let s = mapping.entries@;
    let names = pair_names(s);
    let to = target_texts(s);
    if plain_keys(down, now) is Ok {
        let dk = plain_keys(down, now)->Ok_0;
        lemma_outside(names, dk);
        if plain_keys(up, now) is Ok {
            let uk = plain_keys(up, now)->Ok_0;
            lemma_outside(to, uk);
            if pair_fault(PartitionMapping::Static { mapping }, down, up, now) is None {
                assert forall|i: int| 0 <= i < s.len() implies dk.contains((#[trigger] s[i]).0@)
                    && uk.contains(s[i].1@) by {
                    assert(names[i] == s[i].0@);
                    assert(names.contains(s[i].0@));
                    assert(to[i] == s[i].1@);
                    assert(to.contains(s[i].1@));
                }
            }
            if forall|i: int|
                0 <= i < s.len() ==> dk.contains((#[trigger] s[i]).0@) && uk.contains(s[i].1@) {
                assert forall|k: Seq<char>| #[trigger] names.contains(k) implies dk.contains(
                    k,
                ) by {
                    let i = choose|i: int| 0 <= i < names.len() && names[i] == k;
                    assert(s[i].0@ == k);
                }
                assert forall|k: Seq<char>| #[trigger] to.contains(k) implies uk.contains(k) by {
                    let i = choose|i: int| 0 <= i < to.len() && to[i] == k;
                    assert(s[i].1@ == k);
                }
            }
        }
    }
}

/// The keys of a side that are listed for such mappings are those of a scheme of one
/// dimension; one of several has none.
pub proof fn lemma_plain_keys(d: DefView, now: int)
    ensures
        !(d is Multi) ==> plain_keys(d, now) == single_keys(d, now),
        d is Multi ==> (plain_keys(d, now) matches Ok(ks) ==> ks.len() == 0),
{
}

/// A mapping to all keys is valid between any partitioned assets; one for specific keys and
/// one for chosen keys between none. A Subset mapping needs schemes of one kind, and of
/// static ones that every upstream key is a downstream key.
pub proof fn lemma_plain_edges(m: PartitionMapping, down: DefView, up: DefView, now: int)
    ensures
        m is AllPartitions ==> pair_fault(m, down, up, now) is None,
        m is SpecificPartitions || m is ForKeys ==> pair_fault(m, down, up, now) is Some,
        m is Subset ==> match (down, up) {
            (DefView::Static(d), DefView::Static(u)) => pair_fault(m, down, up, now) is None
                <==> forall|k: Seq<char>| #[trigger] u.contains(k) ==> d.contains(k),
            (DefView::TimeWindow(_), DefView::TimeWindow(_)) => pair_fault(m, down, up, now)
                is None,
            (DefView::Dynamic(_), DefView::Dynamic(_)) => pair_fault(m, down, up, now) is None,
            (DefView::Multi(_), DefView::Multi(_)) => pair_fault(m, down, up, now) is None,
            _ => pair_fault(m, down, up, now) is Some,
        },
{
    if let (DefView::Static(d), DefView::Static(u)) = (down, up) {
        lemma_outside(u, d);
    }
}

/// A MultiToSingle mapping is valid exactly where one side alone has several dimensions, the
/// named one among them, and the inner mapping is valid between that dimension and the other
/// side: from the dimension where the downstream has it, to the dimension where the upstream
/// has. What is wrong with the inner mapping is wrong in that dimension.
pub proof fn lemma_multi_to_single_edge(
    dimension_name: String,
    partition_mapping: BoxedMapping,
    down: DefView,
    up: DefView,
    now: int,
)
    ensures
        ({
            let m = PartitionMapping::MultiToSingle { dimension_name, partition_mapping };
            let inner = *partition_mapping.0;
            let name = dimension_name@;
            let fault = pair_fault(m, down, up, now);
            match (down, up) {
                (DefView::Multi(_), DefView::Multi(_)) => fault is Some,
                (DefView::Multi(dims), _) => {
                    &&& fault is None <==> (find_dim(dims, name) matches Some(d) && pair_fault(
                        inner,
                        d,
                        up,
                        now,
                    ) is None)
                    &&& find_dim(dims, name) matches Some(d) ==> (pair_fault(
                        inner,
                        d,
                        up,
                        now,
                    ) matches Some(e) ==> fault == Some(
                        MapErrView::InDimension(name, Box::new(e)),
                    ))
                },
                (_, DefView::Multi(dims)) => {
                    &&& fault is None <==> (find_dim(dims, name) matches Some(d) && pair_fault(
                        inner,
                        down,
                        d,
                        now,
                    ) is None)
                    &&& find_dim(dims, name) matches Some(d) ==> (pair_fault(
                        inner,
                        down,
                        d,
                        now,
                    ) matches Some(e) ==> fault == Some(
                        MapErrView::InDimension(name, Box::new(e)),
                    ))
                },
                _ => fault is Some,
            }
        }),
{
}

/// Where a MultiToSingle mapping with an Identity inside is valid between static keys and a
/// static dimension, every downstream key is an upstream key of that dimension.
pub proof fn lemma_identity_in_dimension(
    dimension_name: String,
    partition_mapping: BoxedMapping,
    down: DefView,
    up: DefView,
    d: Seq<Seq<char>>,
    u: Seq<Seq<char>>,
    now: int,
)
    requires
        *partition_mapping.0 is Identity,
        match (down, up) {
            (DefView::Multi(dims), DefView::Static(k)) => find_dim(dims, dimension_name@) == Some(
                DefView::Static(d),
            ) && k == u,
            (DefView::Static(k), DefView::Multi(dims)) => find_dim(dims, dimension_name@) == Some(
                DefView::Static(u),
            ) && k == d,
            _ => false,
        },
    ensures
        pair_fault(
            PartitionMapping::MultiToSingle { dimension_name, partition_mapping },
            down,
            up,
            now,
        ) is None <==> forall|k: Seq<char>| #[trigger] d.contains(k) ==> u.contains(k),
{
    lemma_multi_to_single_edge(dimension_name, partition_mapping, down, up, now);
    lemma_identity_edge(DefView::Static(d), DefView::Static(u), now);
}

/// Whether the mapping of one dimension is valid: the upstream has the dimension it is for,
/// the downstream the one it is mapped from, and it is valid between the two.
pub open spec fn entry_valid(
    e: (String, (String, PartitionMapping)),
    down: Seq<(Seq<char>, DefView)>,
    up: Seq<(Seq<char>, DefView)>,
    now: int,
) -> bool {
    last_dim(up, e.0@) matches Some(u) && (last_dim(down, e.1.0@) matches Some(d) && pair_fault(
        e.1.1,
        d,
        u,
        now,
    ) is None)
}

/// A mapping of several dimensions is valid exactly between schemes of several dimensions
/// where every upstream dimension has a mapping, every downstream dimension is mapped from
/// once and once only, and each of the mappings is valid between its two dimensions.
pub proof fn lemma_multi_edge(
    dimension_mappings: NameMap<(String, PartitionMapping)>,
    down: DefView,
    up: DefView,
    now: int,
)
    ensures
        ({
            let s = dimension_mappings.entries@;
            pair_fault(PartitionMapping::Multi { dimension_mappings }, down, up, now) is None
                <==> (down matches DefView::Multi(d) && (up matches DefView::Multi(u) && {
                &&& forall|n: Seq<char>| #[trigger]
                    dim_names(u).contains(n) ==> exists|i: int|
                        0 <= i < s.len() && (#[trigger] s[i]).0@ == n
                &&& forall|n: Seq<char>| #[trigger]
                    dim_names(d).contains(n) ==> exists|i: int|
                        0 <= i < s.len() && (#[trigger] s[i]).1.0@ == n
                &&& forall|i: int, j: int|
                    0 <= i < j < s.len() ==> (#[trigger] s[i]).1.0@ != (#[trigger] s[j]).1.0@
                &&& forall|i: int| 0 <= i < s.len() ==> entry_valid(#[trigger] s[i], d, u, now)
            }))
        }),
{
    let s = dimension_mappings.entries@;
    if let (DefView::Multi(d), DefView::Multi(u)) = (down, up) {
        let names = pair_names(s);
        let from = targets(s);
        lemma_outside(dim_names(u), names);
        lemma_outside(dim_names(d), from);
        lemma_entries(s, d, u, now);
        assert forall|n: Seq<char>| #[trigger] names.contains(n) <==> exists|i: int|
            0 <= i < s.len() && (#[trigger] s[i]).0@ == n by {
            if names.contains(n) {
                let i = choose|i: int| 0 <= i < names.len() && names[i] == n;
                assert(s[i].0@ == n);
            }
            if exists|i: int| 0 <= i < s.len() && (#[trigger] s[i]).0@ == n {
                let i = choose|i: int| 0 <= i < s.len() && (#[trigger] s[i]).0@ == n;
                assert(names[i] == n);
            }
        }
        assert forall|n: Seq<char>| #[trigger] from.contains(n) <==> exists|i: int|
            0 <= i < s.len() && (#[trigger] s[i]).1.0@ == n by {
            if from.contains(n) {
                let i = choose|i: int| 0 <= i < from.len() && from[i] == n;
                assert(s[i].1.0@ == n);
            }
            if exists|i: int| 0 <= i < s.len() && (#[trigger] s[i]).1.0@ == n {
                let i = choose|i: int| 0 <= i < s.len() && (#[trigger] s[i]).1.0@ == n;
                assert(from[i] == n);
            }
        }
        assert forall|n: Seq<char>| #[trigger] dim_names(u).contains(n) && outside(
            dim_names(u),
            names,
        ).len() == 0 implies names.contains(n) by {}
        assert forall|n: Seq<char>| #[trigger] dim_names(d).contains(n) && outside(
            dim_names(d),
            from,
        ).len() == 0 implies from.contains(n) by {}
    }
}

proof fn lemma_entries(
    s: Seq<(String, (String, PartitionMapping))>,
    down: Seq<(Seq<char>, DefView)>,
    up: Seq<(Seq<char>, DefView)>,
    now: int,
)
    ensures
        entries_fault(s, down, up, now) is None <==> {
            &&& forall|i: int| 0 <= i < s.len() ==> entry_valid(#[trigger] s[i], down, up, now)
            &&& forall|i: int, j: int|
                0 <= i < j < s.len() ==> (#[trigger] s[i]).1.0@ != (#[trigger] s[j]).1.0@
        },
    decreases s.len(),
{
    if s.len() > 0 {
        let w = s.drop_last();
        let n = s.len() - 1;
        lemma_entries(w, down, up, now);
        assert(s.last() == s[n]);
        let from = targets(w);
        let name = s[n].1.0@;
        if from.contains(name) {
            let i = choose|i: int| 0 <= i < from.len() && from[i] == name;
            assert(w[i] == s[i]);
            assert(s[i].1.0@ == s[n].1.0@);
        }
        if entries_fault(s, down, up, now) is None {
            assert forall|i: int| 0 <= i < s.len() implies entry_valid(
                #[trigger] s[i],
                down,
                up,
                now,
            ) by {
                if i < n {
                    assert(w[i] == s[i]);
                }
            }
            assert forall|i: int, j: int| 0 <= i < j < s.len() implies (#[trigger] s[i]).1.0@ != (
            #[trigger] s[j]).1.0@ by {
                assert(w[i] == s[i]);
                if j < n {
                    assert(w[j] == s[j]);
                } else {
                    assert(from[i] == s[i].1.0@);
                }
            }
        }
        if (forall|i: int| 0 <= i < s.len() ==> entry_valid(#[trigger] s[i], down, up, now)) && (
        forall|i: int, j: int|
            0 <= i < j < s.len() ==> (#[trigger] s[i]).1.0@ != (#[trigger] s[j]).1.0@) {
            assert forall|i: int| 0 <= i < w.len() implies entry_valid(
                #[trigger] w[i],
                down,
                up,
                now,
            ) by {
                assert(w[i] == s[i]);
            }
            assert forall|i: int, j: int| 0 <= i < j < w.len() implies (#[trigger] w[i]).1.0@ != (
            #[trigger] w[j]).1.0@ by {
                assert(s[i].1.0@ != s[j].1.0@);
            }
            assert(entry_valid(s[n], down, up, now));
        }
    }
}

/// The keys of one grid fit another only under the same format. Of two grids with intervals
/// the downstream interval is a number of upstream intervals, and it starts a number of them
/// from the upstream start; else each of the first downstream window starts, whatever the
/// end of the grid, is an upstream window start.
pub proof fn lemma_grids_fit(mapping: Seq<char>, down: GridView, up: GridView)
    ensures
        ({
            let fits = compat_fault(mapping, down, up) is None;
            &&& fits ==> down.fmt == up.fmt
            &&& down.cron is None && up.cron is None && down.interval is Some && up.interval
                is Some ==> (fits <==> {
                &&& down.fmt == up.fmt
                &&& down.interval->0.ns > 0 && up.interval->0.ns > 0
                &&& down.interval->0.ns % up.interval->0.ns == 0
                &&& (down.start - up.start) % up.interval->0.ns == 0
            })
            &&& !(down.cron is None && up.cron is None && down.interval is Some && up.interval
                is Some) ==> (fits <==> down.fmt == up.fmt && (trial_ticks(down) matches Ok(ts)
                && forall|i: int|
                0 <= i < ts.len() ==> on_grid(up, #[trigger] ts[i]) == Ok::<bool, FaultView>(true)))
        }),
{
    if let Ok(ts) = trial_ticks(down) {
        lemma_none_off_grid(ts, up);
    }
}

proof fn lemma_none_off_grid(ts: Seq<int>, g: GridView)
    ensures
        first_off_grid(ts, g) == Ok::<Option<int>, FaultView>(None) <==> forall|i: int|
            0 <= i < ts.len() ==> on_grid(g, #[trigger] ts[i]) == Ok::<bool, FaultView>(true),
    decreases ts.len(),
{
    if ts.len() > 0 {
        let w = ts.drop_last();
        let n = ts.len() - 1;
        lemma_none_off_grid(w, g);
        assert(ts.last() == ts[n]);
        if first_off_grid(ts, g) == Ok::<Option<int>, FaultView>(None) {
            assert forall|i: int| 0 <= i < ts.len() implies on_grid(g, #[trigger] ts[i]) == Ok::<
                bool,
                FaultView,
            >(true) by {
                if i < n {
                    assert(w[i] == ts[i]);
                }
            }
        }
        if forall|i: int|
            0 <= i < ts.len() ==> on_grid(g, #[trigger] ts[i]) == Ok::<bool, FaultView>(true) {
            assert forall|i: int| 0 <= i < w.len() implies on_grid(g, #[trigger] w[i]) == Ok::<
                bool,
                FaultView,
            >(true) by {
                assert(w[i] == ts[i]);
            }
            assert(on_grid(g, ts[n]) == Ok::<bool, FaultView>(true));
        }
    }
}

/// Without a mapping an edge is valid as an Identity between partitioned assets, and to an
/// upstream that has no partitions; an upstream that has needs one. With a mapping, two
/// assets without partitions admit an Identity alone, a partitioned one with an upstream
/// that is not admits a mapping for keys whose selectors fit and one to all keys, and the
/// reverse one to all keys and one for specific keys that the upstream has.
pub proof fn lemma_edges(
    m: Option<PartitionMapping>,
    down: Option<DefView>,
    up: Option<DefView>,
    facts: KeyFacts,
)
    ensures
        ({
            let valid = edge_fault(m, down, up, facts) is None;
            let now = facts.now.at();
            match (down, up) {
                (Some(d), Some(u)) => {
                    &&& m is None ==> (valid <==> pair_fault(
                        PartitionMapping::Identity,
                        d,
                        u,
                        now,
                    ) is None)
                    &&& m is Some ==> (valid <==> pair_fault(m->0, d, u, now) is None)
                },
                (None, None) => valid <==> m is None || m->0 is Identity,
                (Some(d), None) => {
                    &&& m is None ==> valid
                    &&& m matches Some(x) ==> (x is AllPartitions ==> valid)
                    &&& m matches Some(x) ==> (x matches PartitionMapping::ForKeys { selectors }
                        ==> (valid <==> forall|i: int|
                        0 <= i < selectors@.len() ==> selector_fits(
                            #[trigger] selectors@[i],
                            d,
                            facts,
                        )))
                    &&& m matches Some(x) ==> (!(x is AllPartitions || x is ForKeys) ==> !valid)
                },
                (None, Some(u)) => {
                    &&& m is None ==> !valid
                    &&& m matches Some(x) ==> (x is AllPartitions ==> valid)
                    &&& m matches Some(x) ==> (x matches PartitionMapping::SpecificPartitions {
                        partition_keys,
                    } ==> (valid <==> (plain_keys(u, now) matches Ok(uk) && forall|k: Seq<char>|
                        #[trigger]
                        texts(partition_keys@).contains(k) ==> uk.contains(k))))
                    &&& m matches Some(x) ==> (!(x is AllPartitions || x is SpecificPartitions)
                        ==> !valid)
                },
            }
        }),
{
    let now = facts.now.at();
    match (down, up) {
        (Some(d), None) => {
            if let Some(x) = m {
                if x is ForKeys {
                    lemma_selectors(x->selectors@, d, facts);
                }
            }
        },
        (None, Some(u)) => {
            if let Some(x) = m {
                if x is SpecificPartitions {
                    if let Ok(uk) = plain_keys(u, now) {
                        lemma_outside(texts(x->partition_keys@), uk);
                    }
                }
            }
        },
        _ => {},
    }
}

/// Whether a selector fits a scheme: it is a key of it, or a range whose ends fit.
pub open spec fn selector_fits(s: PartitionKeySelector, d: DefView, facts: KeyFacts) -> bool {
    &&& s matches PartitionKeySelector::Key(k) ==> key_valid(
        d,
        facts.now.at(),
        k@,
        facts.readings,
    ) == Ok::<bool, FaultView>(true)
    &&& s matches PartitionKeySelector::Range(r) ==> against_fault(r, d, facts.readings) is None
}

proof fn lemma_selectors(s: Seq<PartitionKeySelector>, d: DefView, facts: KeyFacts)
    ensures
        selectors_fault(s, d, facts) is None <==> forall|i: int|
            0 <= i < s.len() ==> selector_fits(#[trigger] s[i], d, facts),
    decreases s.len(),
{
    if s.len() > 0 {
        let w = s.drop_last();
        let n = s.len() - 1;
        lemma_selectors(w, d, facts);
        assert(s.last() == s[n]);
        if selectors_fault(s, d, facts) is None {
            assert forall|i: int| 0 <= i < s.len() implies selector_fits(
                #[trigger] s[i],
                d,
                facts,
            ) by {
                if i < n {
                    assert(w[i] == s[i]);
                }
            }
        }
        if forall|i: int| 0 <= i < s.len() ==> selector_fits(#[trigger] s[i], d, facts) {
            assert forall|i: int| 0 <= i < w.len() implies selector_fits(
                #[trigger] w[i],
                d,
                facts,
            ) by {
                assert(w[i] == s[i]);
            }
            assert(selector_fits(s[n], d, facts));
        }
    }
}

} // verus!
