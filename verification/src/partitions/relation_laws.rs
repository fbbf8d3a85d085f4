//! What holds between schemes: of their common part, of mappings that were validated,
//! and of ranges of keys.
use vstd::prelude::*;
use crate::errors::FaultView;
use crate::names::{lemma_pairs_dom, lemma_pairs_value, pair_names, NameMap};
use crate::partitions::definition::{
    dimension_of, lemma_find_dim, single_keys, single_views, DefView,
};
use crate::partitions::facts::KeyFacts;
use crate::partitions::grid::{same_lengths, GridView};
use crate::partitions::grid_compat::{compat_fault, on_grid};
use crate::partitions::key::KeyView;
use crate::partitions::key_range::{
    dim_in_range, in_range, keys_in_range, range_has, resolved, selected_dims, selected_keys,
    DimensionSelection, PartitionKeyRangeInner, PyPartitionKeyRange, SelView,
};
use crate::partitions::listing_laws::{
    distinct_dims, distinct_keyed, lemma_combo_parts, lifted,
};
use crate::partitions::mapping::{resolution, PartitionMapping, ResolutionErrorView, ResolutionView};
use crate::partitions::mapping_rules::{lemma_outside, pair_fault, plain_keys, target_texts};
use crate::partitions::meet::{
    common_keys, dim_names, last_dim, later_start, lemma_common_keys, meet, meet_dims, meet_grids,
};
use crate::partitions::product::{combo_at, combo_key, combos, lemma_combo_at, lemma_combo_count};
use crate::partitions::readings::Readings;
use crate::partitions::rules::key_valid;


verus! {

/// Whether a place lies in the range of a grid.
pub open spec fn in_grid_range(g: GridView, t: int) -> bool {
    g.start <= t && match g.end {
        Some(e) => t < e,
        None => true,
    }
}

/// The common part of two grids covers what both cover, and nothing else; two grids of
/// one cadence and format have one exactly when something is covered by both.
pub proof fn lemma_meet_grid_range(a: GridView, b: GridView)
    ensures
        meet_grids(a, b) matches Ok(g) ==> forall|t: int| #[trigger]
            in_grid_range(g, t) <==> in_grid_range(a, t) && in_grid_range(b, t),
        a.cron == b.cron && same_lengths(a.interval, b.interval) && a.fmt == b.fmt ==> (meet_grids(a, b) is Ok
            <==> exists|t: int| #[trigger] in_grid_range(a, t) && in_grid_range(b, t)),
{
    if a.cron == b.cron && same_lengths(a.interval, b.interval) && a.fmt == b.fmt {
        let s = later_start(a, b);
        if meet_grids(a, b) is Ok {
            assert(in_grid_range(a, s) && in_grid_range(b, s));
        }
        if exists|t: int| #[trigger] in_grid_range(a, t) && in_grid_range(b, t) {
            let t = choose|t: int| #[trigger] in_grid_range(a, t) && in_grid_range(b, t);
            assert(s <= t);
        }
    }
}

/// A static key belongs to the common part of two static schemes exactly when it
/// belongs to both; they have one exactly when they have a key in common.
pub proof fn lemma_meet_static(a: Seq<Seq<char>>, b: Seq<Seq<char>>)
    ensures
        meet(DefView::Static(a), DefView::Static(b)) matches Ok(d) ==> {
            &&& d is Static
            &&& forall|k: Seq<char>| #[trigger]
                d->Static_0.contains(k) <==> a.contains(k) && b.contains(k)
        },
        meet(DefView::Static(a), DefView::Static(b)) is Ok <==> exists|k: Seq<char>| #[trigger]
            a.contains(k) && b.contains(k),
{
    lemma_common_keys(a, b);
    let c = common_keys(a, b);
    if c.len() > 0 {
        assert(c.contains(c[0]));
        assert(a.contains(c[0]) && b.contains(c[0]));
    }
    if exists|k: Seq<char>| #[trigger] a.contains(k) && b.contains(k) {
        let k = choose|k: Seq<char>| #[trigger] a.contains(k) && b.contains(k);
        assert(c.contains(k));
    }
}

/// A scheme that has anything to share: keys, a range that is not empty, dimensions of
/// distinct names that have.
pub open spec fn shareable(d: DefView) -> bool
    decreases d,
{
    match d {
        DefView::Static(keys) => keys.len() > 0,
        DefView::TimeWindow(g) => {
            &&& g.end matches Some(e) ==> g.start < e
            &&& g.interval matches Some(i) ==> i.text != "NaN"@
        },
        DefView::Multi(dims) => distinct_dims(dims) && all_shareable(dims),
        DefView::Dynamic(_) => true,
    }
}

/// Every dimension of a list has anything to share.
pub open spec fn all_shareable(dims: Seq<(Seq<char>, DefView)>) -> bool
    decreases dims,
{
    dims.len() == 0 || (all_shareable(dims.drop_last()) && shareable(dims.last().1))
}

proof fn lemma_common_with_itself(a: Seq<Seq<char>>, n: int)
    requires
        0 <= n <= a.len(),
    ensures
        common_keys(a, a.take(n)) == a.take(n),
    decreases n,
{
    if n > 0 {
        lemma_common_with_itself(a, n - 1);
        assert(a.take(n).drop_last() =~= a.take(n - 1));
        assert(a.contains(a[n - 1]));
        assert(a.take(n) =~= a.take(n - 1).push(a[n - 1]));
    } else {
        assert(a.take(0) =~= Seq::empty());
    }
}

/// A dimension of a list of distinct names is the last of its name.
pub proof fn lemma_last_of_distinct(dims: Seq<(Seq<char>, DefView)>, i: int)
    requires
        distinct_dims(dims),
        0 <= i < dims.len(),
    ensures
        last_dim(dims, dims[i].0) == Some(dims[i].1),
    decreases dims.len(),
{
    if i < dims.len() - 1 {
        assert(dims[i].0 != dims[dims.len() - 1].0);
        let w = dims.drop_last();
        assert(distinct_dims(w)) by {
            assert forall|a: int, b: int| 0 <= a < b < w.len() implies (#[trigger] w[a]).0 != (
            #[trigger] w[b]).0 by {
                assert(dims[a].0 != dims[b].0);
            }
        }
        lemma_last_of_distinct(w, i);
    }
}

/// A scheme is its own common part with itself.
pub proof fn lemma_meet_itself(d: DefView)
    requires
        shareable(d),
    ensures
        meet(d, d) == Ok::<DefView, Seq<char>>(d),
    decreases d,
{
    match d {
        DefView::Static(keys) => {
            lemma_common_with_itself(keys, keys.len() as int);
            assert(keys.take(keys.len() as int) =~= keys);
        },
        DefView::TimeWindow(_) => {},
        DefView::Multi(dims) => {
            assert(dims.take(dims.len() as int) =~= dims);
            lemma_meet_dims_itself(dims, dims, dims.len() as int);
        },
        DefView::Dynamic(_) => {},
    }
}

proof fn lemma_meet_dims_itself(
    part: Seq<(Seq<char>, DefView)>,
    dims: Seq<(Seq<char>, DefView)>,
    n: int,
)
    requires
        0 <= n <= dims.len(),
        part == dims.take(n),
        distinct_dims(dims),
        all_shareable(part),
    ensures
        meet_dims(part, dims) == Ok::<Seq<(Seq<char>, DefView)>, Seq<char>>(part),
    decreases part,
{
    if n > 0 {
        let w = part.drop_last();
        assert(w =~= dims.take(n - 1));
        assert(part.last() == dims[n - 1]);
        lemma_meet_dims_itself(w, dims, n - 1);
        lemma_last_of_distinct(dims, n - 1);
        lemma_meet_itself(part.last().1);
        assert(w.push(part.last()) =~= part);
    } else {
        assert(part =~= Seq::empty());
    }
}

/// An Identity mapping that is valid between static schemes loses no key: every
/// downstream key is one of the upstream.
pub proof fn lemma_identity_static(d: Seq<Seq<char>>, u: Seq<Seq<char>>, now: int)
    requires
        pair_fault(
            PartitionMapping::Identity,
            DefView::Static(d),
            DefView::Static(u),
            now,
        ) is None,
    ensures
        forall|k: Seq<char>| #[trigger] d.contains(k) ==> u.contains(k),
{
    lemma_outside(d, u);
}

/// A Subset mapping that is valid between static schemes has every upstream key
/// downstream.
pub proof fn lemma_subset_static(d: Seq<Seq<char>>, u: Seq<Seq<char>>, now: int)
    requires
        pair_fault(
            PartitionMapping::Subset,
            DefView::Static(d),
            DefView::Static(u),
            now,
        ) is None,
    ensures
        forall|k: Seq<char>| #[trigger] u.contains(k) ==> d.contains(k),
{
    lemma_outside(u, d);
}

/// A Static mapping that is valid maps downstream keys to upstream keys alone.
pub proof fn lemma_static_mapping(
    mapping: NameMap<String>,
    down: DefView,
    up: DefView,
    now: int,
    key: Seq<char>,
)
    requires
        pair_fault(PartitionMapping::Static { mapping }, down, up, now) is None,
        mapping@.dom().contains(key),
    ensures
        plain_keys(down, now) is Ok,
        plain_keys(up, now) is Ok,
        plain_keys(down, now)->Ok_0.contains(key),
        plain_keys(up, now)->Ok_0.contains(mapping@[key]@),
{
    let s = mapping.entries@;
    let dk = plain_keys(down, now)->Ok_0;
    let uk = plain_keys(up, now)->Ok_0;
    lemma_outside(pair_names(s), dk);
    lemma_outside(target_texts(s), uk);
    lemma_pairs_dom(s, key);
    lemma_last_pair(s, key, s.len() as int);
    let i = choose|i: int|
        0 <= i < s.len() && s[i].0@ == key && (#[trigger] s[i]).1 == mapping@[key];
    assert(pair_names(s)[i] == key);
    assert(pair_names(s).contains(key));
    assert(target_texts(s)[i] == mapping@[key]@);
    assert(target_texts(s).contains(mapping@[key]@));
}

proof fn lemma_last_pair(s: Seq<(String, String)>, key: Seq<char>, n: int)
    requires
        n == s.len(),
        crate::names::pairs_map(s).dom().contains(key),
    ensures
        exists|i: int|
            0 <= i < s.len() && s[i].0@ == key && (#[trigger] s[i]).1 == crate::names::pairs_map(
                s,
            )[key],
    decreases n,
{
    if s.last().0@ == key {
        assert(s[s.len() - 1].1 == crate::names::pairs_map(s)[key]);
    } else {
        let w = s.drop_last();
        assert(crate::names::pairs_map(w).dom().contains(key));
        lemma_last_pair(w, key, n - 1);
        let i = choose|i: int|
            0 <= i < w.len() && w[i].0@ == key && (#[trigger] w[i]).1 == crate::names::pairs_map(
                w,
            )[key];
        assert(s[i] == w[i]);
    }
}

/// A mapping that resolves keys of one grid with an interval on another is valid only
/// where every window start of the first is one of the second.
pub proof fn lemma_compatible_grids(mapping: Seq<char>, down: GridView, up: GridView, k: int)
    requires
        compat_fault(mapping, down, up) is None,
        down.cron is None && up.cron is None,
        down.interval is Some && up.interval is Some,
        k >= 0,
    ensures
        down.fmt == up.fmt,
        on_grid(up, down.start + k * down.interval->0.ns) == Ok::<bool, FaultView>(true),
{
    let d = down.interval->0.ns;
    let u = up.interval->0.ns;
    let gap = down.start - up.start;
    vstd::arithmetic::div_mod::lemma_fundamental_div_mod(d, u);
    vstd::arithmetic::div_mod::lemma_fundamental_div_mod(gap, u);
    let q = gap / u + k * (d / u);
    assert(gap + k * d == q * u) by (nonlinear_arith)
        requires
            gap == u * (gap / u),
            d == u * (d / u),
            q == gap / u + k * (d / u),
    ;
    vstd::arithmetic::div_mod::lemma_mod_multiples_basic(q, u);
    assert(down.start + k * d - up.start == q * u);
}

/// A mapping that skips never hands a key of its own to the upstream: one for keys
/// loads it whole or not at all, a subset loads the very key or nothing.
pub proof fn lemma_skip_semantics(
    m: PartitionMapping,
    k: KeyView,
    down: Option<DefView>,
    up: Option<DefView>,
    facts: KeyFacts,
)
    ensures
        m is ForKeys ==> (resolution(m, Some(k), down, up, facts) == Ok::<
            ResolutionView,
            ResolutionErrorView,
        >(ResolutionView::Load(None)) || resolution(m, Some(k), down, up, facts) == Ok::<
            ResolutionView,
            ResolutionErrorView,
        >(ResolutionView::Skip)),
        m is Subset && up is Some ==> match key_valid(
            up->0,
            facts.now.at(),
            k,
            facts.readings,
        ) {
            Ok(b) => resolution(m, Some(k), down, up, facts) == Ok::<
                ResolutionView,
                ResolutionErrorView,
            >(
                if b {
                    ResolutionView::Load(Some(k))
                } else {
                    ResolutionView::Skip
                },
            ),
            Err(_) => resolution(m, Some(k), down, up, facts) is Err,
        },
{
}

/// Without a downstream key, a mapping that transforms keys loads the upstream whole.
pub proof fn lemma_no_downstream_key(
    m: PartitionMapping,
    down: Option<DefView>,
    up: Option<DefView>,
    facts: KeyFacts,
)
    requires
        m is Identity || m is AllPartitions || m is Static || m is TimeWindow || m is Multi
            || m is MultiToSingle,
    ensures
        resolution(m, None, down, up, facts) == Ok::<ResolutionView, ResolutionErrorView>(
            ResolutionView::Load(None),
        ),
{
}

/// A mapping that keeps keys hands the downstream key to the upstream.
pub proof fn lemma_keys_kept(
    m: PartitionMapping,
    k: KeyView,
    down: Option<DefView>,
    up: Option<DefView>,
    facts: KeyFacts,
)
    requires
        m is Identity || m is AllPartitions || m == (PartitionMapping::TimeWindow { offset: 0 }),
    ensures
        resolution(m, Some(k), down, up, facts) == Ok::<ResolutionView, ResolutionErrorView>(
            ResolutionView::Load(Some(k)),
        ),
{
}

proof fn lemma_keys_in_range(
    v: Seq<Seq<char>>,
    from: Seq<char>,
    to: Seq<char>,
    def: DefView,
    readings: Readings,
)
    ensures
        forall|k: Seq<char>| #[trigger]
            keys_in_range(v, from, to, def, readings).contains(k) <==> v.contains(k) && in_range(
                k,
                from,
                to,
                Some(def),
                readings,
            ),
    decreases v.len(),
{
    if v.len() > 0 {
        let w = v.drop_last();
        let u = keys_in_range(w, from, to, def, readings);
        let r = keys_in_range(v, from, to, def, readings);
        lemma_keys_in_range(w, from, to, def, readings);
        assert forall|k: Seq<char>| #[trigger] r.contains(k) <==> v.contains(k) && in_range(
            k,
            from,
            to,
            Some(def),
            readings,
        ) by {
            if r.contains(k) {
                let i = choose|i: int| 0 <= i < r.len() && r[i] == k;
                if i < u.len() {
                    assert(u[i] == k);
                    assert(u.contains(k));
                    let j = choose|j: int| 0 <= j < w.len() && w[j] == k;
                    assert(v[j] == k);
                } else {
                    assert(v[v.len() - 1] == k);
                }
            }
            if v.contains(k) && in_range(k, from, to, Some(def), readings) {
                let j = choose|j: int| 0 <= j < v.len() && v[j] == k;
                if j < w.len() {
                    assert(w[j] == k);
                    assert(w.contains(k));
                    assert(u.contains(k));
                    let i = choose|i: int| 0 <= i < u.len() && u[i] == k;
                    assert(r[i] == k);
                } else {
                    assert(r[u.len() as int] == k);
                }
            }
        }
    }
}

/// A range of single keys resolves to exactly those keys of the definition that it
/// contains.
pub proof fn lemma_range_resolves(
    from_key: String,
    to_key: String,
    def: DefView,
    now: int,
    readings: Readings,
    k: Seq<char>,
)
    requires
        resolved(
            PyPartitionKeyRange {
                inner: PartitionKeyRangeInner::Single { from_key, to_key },
            },
            def,
            now,
            readings,
        ) is Ok,
    ensures
        ({
            let r = PyPartitionKeyRange {
                inner: PartitionKeyRangeInner::Single { from_key, to_key },
            };
            &&& single_keys(def, now) is Ok
            &&& resolved(r, def, now, readings)->Ok_0.contains(KeyView::Single(seq![k])) <==> (
            single_keys(def, now)->Ok_0.contains(k) && range_has(
                r,
                KeyView::Single(seq![k]),
                Some(def),
                readings,
            ))
        }),
{
    let r = PyPartitionKeyRange { inner: PartitionKeyRangeInner::Single { from_key, to_key } };
    let all = single_keys(def, now)->Ok_0;
    let ks = keys_in_range(all, from_key@, to_key@, def, readings);
    let v = resolved(r, def, now, readings)->Ok_0;
    lemma_keys_in_range(all, from_key@, to_key@, def, readings);
    assert(v == single_views(ks));
    let one = KeyView::Single(seq![k]);
    if v.contains(one) {
        let i = choose|i: int| 0 <= i < v.len() && v[i] == one;
        assert(v[i] == KeyView::Single(seq![ks[i]]));
        assert(seq![ks[i]][0] == seq![k][0]);
        assert(ks[i] == k);
        assert(ks.contains(k));
    }
    if ks.contains(k) {
        let i = choose|i: int| 0 <= i < ks.len() && ks[i] == k;
        assert(v[i] == one);
    }
    assert(seq![k][0] == k);
}

/// What a range selects of each dimension, one by one.
pub proof fn lemma_selected_dims(
    dims: Seq<(Seq<char>, DefView)>,
    sels: Map<Seq<char>, DimensionSelection>,
    now: int,
    readings: Readings,
)
    requires
        selected_dims(dims, sels, now, readings) is Ok,
    ensures
        selected_dims(dims, sels, now, readings)->Ok_0.len() == dims.len(),
        forall|i: int|
            0 <= i < dims.len() ==> {
                &&& (#[trigger] selected_dims(dims, sels, now, readings)->Ok_0[i]).0 == dims[i].0
                &&& selected_keys(dims[i], sels, now, readings) == Ok::<
                    Seq<Seq<char>>,
                    FaultView,
                >(selected_dims(dims, sels, now, readings)->Ok_0[i].1)
            },
    decreases dims.len(),
{
    if dims.len() > 0 {
        let w = dims.drop_last();
        lemma_selected_dims(w, sels, now, readings);
        let v = selected_dims(dims, sels, now, readings)->Ok_0;
        let u = selected_dims(w, sels, now, readings)->Ok_0;
        assert forall|i: int| 0 <= i < dims.len() implies {
            &&& (#[trigger] v[i]).0 == dims[i].0
            &&& selected_keys(dims[i], sels, now, readings) == Ok::<Seq<Seq<char>>, FaultView>(
                v[i].1,
            )
        } by {
            if i < w.len() {
                assert(u[i] == v[i]);
                assert(w[i] == dims[i]);
            }
        }
    }
}

/// Every key that a range over several dimensions resolves to lies in the range.
pub proof fn lemma_multi_range_resolves(
    dimensions: NameMap<DimensionSelection>,
    dims: Seq<(Seq<char>, DefView)>,
    now: int,
    readings: Readings,
    n: int,
)
    requires
        dimensions.wf(),
        distinct_dims(dims),
        forall|i: int|
            0 <= i < dimensions.entries@.len() ==> dim_names(dims).contains(
                (#[trigger] dimensions.entries@[i]).0@,
            ),
        resolved(
            PyPartitionKeyRange { inner: PartitionKeyRangeInner::Multi { dimensions } },
            DefView::Multi(dims),
            now,
            readings,
        ) is Ok,
        0 <= n < resolved(
            PyPartitionKeyRange { inner: PartitionKeyRangeInner::Multi { dimensions } },
            DefView::Multi(dims),
            now,
            readings,
        )->Ok_0.len(),
    ensures
        range_has(
            PyPartitionKeyRange { inner: PartitionKeyRangeInner::Multi { dimensions } },
            resolved(
                PyPartitionKeyRange { inner: PartitionKeyRangeInner::Multi { dimensions } },
                DefView::Multi(dims),
                now,
                readings,
            )->Ok_0[n],
            Some(DefView::Multi(dims)),
            readings,
        ),
{
    let r = PyPartitionKeyRange { inner: PartitionKeyRangeInner::Multi { dimensions } };
    let def = DefView::Multi(dims);
    let sels = dimensions@;
    let dk = selected_dims(dims, sels, now, readings)->Ok_0;
    lemma_selected_dims(dims, sels, now, readings);
    lemma_combo_count(dk);
    lemma_combo_at(dk, n);
    assert(distinct_keyed(dk)) by {
        assert forall|i: int, j: int| 0 <= i < j < dk.len() implies (#[trigger] dk[i]).0 != (
        #[trigger] dk[j]).0 by {
            assert(dims[i].0 != dims[j].0);
        }
    }
    lemma_combo_parts(dk, n);
    let c = combo_at(dk, n);
    let m = lifted(c);
    let v = resolved(r, def, now, readings)->Ok_0;
    assert(v[n] == combo_key(combos(dk)[n]));
    assert(combo_key(c)->Multi_0 =~= m);
    assert(m.dom() =~= c.dom());
    let s = dimensions.entries@;
    assert forall|i: int| 0 <= i < s.len() implies dim_in_range(
        (#[trigger] s[i]).0@,
        s[i].1@,
        m,
        Some(def),
        readings,
    ) by {
        let name = s[i].0@;
        assert(dim_names(dims).contains(name));
        let j = choose|j: int| 0 <= j < dim_names(dims).len() && dim_names(dims)[j] == name;
        assert(dims[j].0 == name);
        assert(dk[j].0 == name);
        assert forall|x: int| 0 <= x < j implies (#[trigger] dims[x]).0 != name by {
            assert(dims[x].0 != dims[j].0);
        }
        lemma_find_dim(dims, name, j);
        assert(dimension_of(def, name) == Some(dims[j].1));
        assert forall|x: int| i < x < s.len() implies (#[trigger] s[x]).0@ != name by {}
        lemma_pairs_value(s, i);
        assert(sels[name] == s[i].1);
        assert(c.dom().contains(name)) by {
            assert(dk[j].0 == name);
        }
        assert(dk[j].1.contains(c[dk[j].0]));
        assert(m[name] =~= seq![c[name]]);
        assert(m[name][0] == c[name]);
        match s[i].1@ {
            SelView::Range(from, to) => {
                let all = single_keys(dims[j].1, now)->Ok_0;
                lemma_keys_in_range(all, from, to, dims[j].1, readings);
            },
            SelView::Keys(keys) => {},
        }
    }
}

} // verus!
