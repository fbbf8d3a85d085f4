//! What holds of the upstream key that a mapping gives for a downstream key.
use vstd::prelude::*;
use crate::errors::FaultView;
use crate::names::NameMap;
use crate::partitions::definition::{find_dim, single_keys, DefView};
use crate::partitions::facts::KeyFacts;
use crate::partitions::key::KeyView;
use crate::partitions::key_range::range_has;
use crate::partitions::listing_laws::distinct_dims;
use crate::partitions::mapping::{
    filled_dims, mapped, mapped_dims, resolution, selector_matches, BoxedMapping, PartitionKeySelector,
    PartitionMapping, ResolutionErrorView, ResolutionView,
};
use crate::partitions::rules::key_valid;
use crate::text::texts;

verus! {

/// A Static mapping gives a listed key the key that it is listed with, and any other key
/// itself. Only single keys that are not empty can be mapped.
pub proof fn lemma_static_maps(
    mapping: NameMap<String>,
    k: KeyView,
    up: Option<DefView>,
    facts: KeyFacts,
)
    ensures
        ({
            let r = mapped(PartitionMapping::Static { mapping }, k, up, facts);
            &&& k matches KeyView::Single(keys) ==> {
                &&& keys.len() > 0 && mapping@.dom().contains(keys[0]) ==> r == Ok::<
                    KeyView,
                    Seq<char>,
                >(KeyView::Single(seq![mapping@[keys[0]]@]))
                &&& keys.len() > 0 && !mapping@.dom().contains(keys[0]) ==> r == Ok::<
                    KeyView,
                    Seq<char>,
                >(k)
                &&& keys.len() == 0 ==> r is Err
            }
            &&& !(k is Single) ==> r is Err
        }),
{
}

/// A TimeWindow mapping with an offset gives a key the key that many windows away on the
/// upstream grid, where that is a key of the upstream; else there is none. It needs an
/// upstream grid and a single key.
pub proof fn lemma_time_window_maps(
    offset: i64,
    k: KeyView,
    up: Option<DefView>,
    facts: KeyFacts,
)
    requires
        offset != 0,
    ensures
        ({
            let r = mapped(PartitionMapping::TimeWindow { offset }, k, up, facts);
            &&& r is Ok <==> (k matches KeyView::Single(keys) && keys.len() > 0 && (
            up matches Some(DefView::TimeWindow(g)) && (facts.shifts.of(
                g,
                keys[0],
                offset,
            ) matches Ok(to) && key_valid(
                DefView::TimeWindow(g),
                facts.now.at(),
                KeyView::Single(seq![to]),
                facts.readings,
            ) == Ok::<bool, FaultView>(true))))
            &&& r matches Ok(to) ==> to == KeyView::Single(
                seq![facts.shifts.of(
                    (up->0)->TimeWindow_0,
                    (k->Single_0)[0],
                    offset,
                )->Ok_0],
            )
        }),
{
}

/// A mapping of several dimensions gives each upstream dimension that it names the values
/// that its own mapping gives for the downstream dimension it is mapped from, and no other
/// dimension. It gives none where the key lacks such a dimension, or the mapping of one
/// gives no single key.
pub proof fn lemma_multi_maps(
    dimension_mappings: NameMap<(String, PartitionMapping)>,
    k: KeyView,
    up: Option<DefView>,
    facts: KeyFacts,
)
    requires
        dimension_mappings.wf(),
    ensures
        ({
            let s = dimension_mappings.entries@;
            let r = mapped(PartitionMapping::Multi { dimension_mappings }, k, up, facts);
            &&& r is Ok <==> k is Multi && forall|i: int|
                0 <= i < s.len() ==> entry_maps(#[trigger] s[i], k->Multi_0, up, facts) is Some
            &&& r matches Ok(to) ==> {
                &&& to is Multi
                &&& forall|n: Seq<char>| #[trigger]
                    to->Multi_0.dom().contains(n) <==> exists|i: int|
                        0 <= i < s.len() && (#[trigger] s[i]).0@ == n
                &&& forall|i: int|
                    0 <= i < s.len() ==> Some(to->Multi_0[(#[trigger] s[i]).0@]) == entry_maps(
                        s[i],
                        k->Multi_0,
                        up,
                        facts,
                    )
            }
        }),
{
    if let KeyView::Multi(dims) = k {
        lemma_dims_mapped(dimension_mappings.entries@, dims, up, facts);
    }
}

/// The values that the mapping of one dimension gives: those of the single key that it maps
/// the values of its downstream dimension to, on the upstream dimension of its name.
pub open spec fn entry_maps(
    e: (String, (String, PartitionMapping)),
    dims: Map<Seq<char>, Seq<Seq<char>>>,
    up: Option<DefView>,
    facts: KeyFacts,
) -> Option<Seq<Seq<char>>> {
    if dims.dom().contains(e.1.0@) {
        match mapped(
            e.1.1,
            KeyView::Single(dims[e.1.0@]),
            match up {
                Some(DefView::Multi(u)) => find_dim(u, e.0@),
                _ => None,
            },
            facts,
        ) {
            Ok(KeyView::Single(vals)) => Some(vals),
            _ => None,
        }
    } else {
        None
    }
}

proof fn lemma_dims_mapped(
    s: Seq<(String, (String, PartitionMapping))>,
    dims: Map<Seq<char>, Seq<Seq<char>>>,
    up: Option<DefView>,
    facts: KeyFacts,
)
    requires
        forall|i: int, j: int|
            0 <= i < j < s.len() ==> (#[trigger] s[i]).0@ != (#[trigger] s[j]).0@,
    ensures
        mapped_dims(s, dims, up, facts) is Ok <==> forall|i: int|
            0 <= i < s.len() ==> entry_maps(#[trigger] s[i], dims, up, facts) is Some,
        mapped_dims(s, dims, up, facts) matches Ok(r) ==> {
            &&& forall|n: Seq<char>| #[trigger]
                r.dom().contains(n) <==> exists|i: int|
                    0 <= i < s.len() && (#[trigger] s[i]).0@ == n
            &&& forall|i: int|
                0 <= i < s.len() ==> Some(r[(#[trigger] s[i]).0@]) == entry_maps(
                    s[i],
                    dims,
                    up,
                    facts,
                )
        },
    decreases s.len(),
{
    if s.len() > 0 {
        let w = s.drop_last();
        let n = s.len() - 1;
        assert forall|i: int, j: int| 0 <= i < j < w.len() implies (#[trigger] w[i]).0@ != (
        #[trigger] w[j]).0@ by {
            assert(s[i].0@ != s[j].0@);
        }
        lemma_dims_mapped(w, dims, up, facts);
        assert forall|i: int| 0 <= i < n implies #[trigger] s[i] == w[i] by {}
        assert(s.last() == s[n]);
        if mapped_dims(s, dims, up, facts) is Ok {
            let q = mapped_dims(w, dims, up, facts)->Ok_0;
            let r = mapped_dims(s, dims, up, facts)->Ok_0;
            assert(entry_maps(s[n], dims, up, facts) is Some);
            assert forall|i: int| 0 <= i < s.len() implies entry_maps(
                #[trigger] s[i],
                dims,
                up,
                facts,
            ) is Some by {
                if i < n {
                    assert(w[i] == s[i]);
                }
            }
            assert forall|name: Seq<char>| #[trigger] r.dom().contains(name) <==> exists|i: int|
                0 <= i < s.len() && (#[trigger] s[i]).0@ == name by {
                if q.dom().contains(name) {
                    let i = choose|i: int| 0 <= i < w.len() && (#[trigger] w[i]).0@ == name;
                    assert(s[i].0@ == name);
                }
                if exists|i: int| 0 <= i < s.len() && (#[trigger] s[i]).0@ == name {
                    let i = choose|i: int| 0 <= i < s.len() && (#[trigger] s[i]).0@ == name;
                    if i < n {
                        assert(w[i].0@ == name);
                    }
                }
                assert(s[n].0@ == s.last().0@);
            }
            assert forall|i: int| 0 <= i < s.len() implies Some(r[(#[trigger] s[i]).0@])
                == entry_maps(s[i], dims, up, facts) by {
                if i < n {
                    assert(s[i].0@ != s[n].0@);
                    assert(w[i] == s[i]);
                    assert(Some(q[w[i].0@]) == entry_maps(w[i], dims, up, facts));
                }
            }
        } else if mapped_dims(w, dims, up, facts) is Err {
            let i = choose|i: int|
                0 <= i < w.len() && !(entry_maps(#[trigger] w[i], dims, up, facts) is Some);
            assert(s[i] == w[i]);
        } else {
            assert(entry_maps(s[n], dims, up, facts) is None);
        }
    }
}

/// A MultiToSingle mapping takes the named dimension out of a key of several dimensions and
/// maps its values as the inner mapping maps them alone, to the same upstream.
pub proof fn lemma_dimension_taken(
    dimension_name: String,
    partition_mapping: BoxedMapping,
    dims: Map<Seq<char>, Seq<Seq<char>>>,
    down: Option<DefView>,
    up: Option<DefView>,
    facts: KeyFacts,
)
    ensures
        ({
            let m = PartitionMapping::MultiToSingle { dimension_name, partition_mapping };
            let inner = *partition_mapping.0;
            let k = KeyView::Multi(dims);
            &&& dims.dom().contains(dimension_name@) ==> mapped(m, k, up, facts) == mapped(
                inner,
                KeyView::Single(dims[dimension_name@]),
                up,
                facts,
            )
            &&& !dims.dom().contains(dimension_name@) ==> mapped(m, k, up, facts) is Err
            &&& dims.dom().contains(dimension_name@) && !(inner is ForKeys || inner is Subset
                || inner is SpecificPartitions) ==> resolution(m, Some(k), down, up, facts)
                == resolution(
                inner,
                Some(KeyView::Single(dims[dimension_name@])),
                down,
                up,
                facts,
            )
        }),
{
}

/// Taken out of a key, the value of a dimension is mapped by a Static inner mapping to the
/// key that it is listed with, and by a TimeWindow inner mapping to the key that many
/// windows away, where the upstream has it.
pub proof fn lemma_dimension_taken_and_mapped(
    dimension_name: String,
    partition_mapping: BoxedMapping,
    dims: Map<Seq<char>, Seq<Seq<char>>>,
    down: Option<DefView>,
    up: Option<DefView>,
    facts: KeyFacts,
    to: Seq<char>,
)
    requires
        dims.dom().contains(dimension_name@),
        dims[dimension_name@].len() > 0,
        ({
            let value = dims[dimension_name@][0];
            match *partition_mapping.0 {
                PartitionMapping::Static { mapping } => mapping@.dom().contains(value)
                    && mapping@[value]@ == to,
                PartitionMapping::TimeWindow { offset } => offset != 0 && (up matches Some(
                    DefView::TimeWindow(g),
                ) && facts.shifts.of(g, value, offset) == Ok::<Seq<char>, Seq<char>>(to)
                    && key_valid(
                    DefView::TimeWindow(g),
                    facts.now.at(),
                    KeyView::Single(seq![to]),
                    facts.readings,
                ) == Ok::<bool, FaultView>(true)),
                _ => false,
            }
        }),
    ensures
        resolution(
            PartitionMapping::MultiToSingle { dimension_name, partition_mapping },
            Some(KeyView::Multi(dims)),
            down,
            up,
            facts,
        ) == Ok::<ResolutionView, ResolutionErrorView>(
            ResolutionView::Load(Some(KeyView::Single(seq![to]))),
        ),
{
    let k = KeyView::Single(dims[dimension_name@]);
    lemma_dimension_taken(dimension_name, partition_mapping, dims, down, up, facts);
    match *partition_mapping.0 {
        PartitionMapping::Static { mapping } => {
            lemma_static_maps(mapping, k, up, facts);
        },
        PartitionMapping::TimeWindow { offset } => {
            lemma_time_window_maps(offset, k, up, facts);
        },
        _ => {},
    }
}

/// A MultiToSingle mapping gives a single key a key of the several upstream dimensions: the
/// named one has the values that the inner mapping gives on it, each other one all of its
/// keys, and there is no other dimension. It gives none where the inner mapping gives no
/// single key, or the keys of another dimension cannot be listed.
pub proof fn lemma_dimensions_filled(
    dimension_name: String,
    partition_mapping: BoxedMapping,
    keys: Seq<Seq<char>>,
    dims: Seq<(Seq<char>, DefView)>,
    facts: KeyFacts,
)
    requires
        distinct_dims(dims),
    ensures
        ({
            let m = PartitionMapping::MultiToSingle { dimension_name, partition_mapping };
            let k = KeyView::Single(keys);
            let r = mapped(m, k, Some(DefView::Multi(dims)), facts);
            let inner = mapped(
                *partition_mapping.0,
                k,
                find_dim(dims, dimension_name@),
                facts,
            );
            &&& r is Ok <==> (inner matches Ok(v) && v is Single) && forall|i: int|
                0 <= i < dims.len() && (#[trigger] dims[i]).0 != dimension_name@ ==> single_keys(
                    dims[i].1,
                    facts.now.at(),
                ) is Ok
            &&& r matches Ok(to) ==> {
                &&& to is Multi
                &&& forall|n: Seq<char>| #[trigger]
                    to->Multi_0.dom().contains(n) <==> exists|i: int|
                        0 <= i < dims.len() && (#[trigger] dims[i]).0 == n
                &&& forall|i: int|
                    0 <= i < dims.len() ==> (#[trigger] dims[i]).0 == dimension_name@
                        ==> to->Multi_0[dims[i].0] == inner->Ok_0->Single_0
                &&& forall|i: int|
                    0 <= i < dims.len() ==> (#[trigger] dims[i]).0 != dimension_name@
                        ==> to->Multi_0[dims[i].0] == single_keys(dims[i].1, facts.now.at())->Ok_0
            }
        }),
{
    let k = KeyView::Single(keys);
    if let Ok(KeyView::Single(vals)) = mapped(
        *partition_mapping.0,
        k,
        find_dim(dims, dimension_name@),
        facts,
    ) {
        lemma_filled(dims, dimension_name@, vals, facts);
    }
}

proof fn lemma_filled(
    dims: Seq<(Seq<char>, DefView)>,
    name: Seq<char>,
    vals: Seq<Seq<char>>,
    facts: KeyFacts,
)
    requires
        distinct_dims(dims),
    ensures
        filled_dims(dims, name, vals, facts) is Ok <==> forall|i: int|
            0 <= i < dims.len() && (#[trigger] dims[i]).0 != name ==> single_keys(
                dims[i].1,
                facts.now.at(),
            ) is Ok,
        filled_dims(dims, name, vals, facts) matches Ok(r) ==> {
            &&& forall|n: Seq<char>| #[trigger]
                r.dom().contains(n) <==> exists|i: int|
                    0 <= i < dims.len() && (#[trigger] dims[i]).0 == n
            &&& forall|i: int|
                0 <= i < dims.len() ==> (#[trigger] dims[i]).0 == name ==> r[dims[i].0] == vals
            &&& forall|i: int|
                0 <= i < dims.len() ==> (#[trigger] dims[i]).0 != name ==> r[dims[i].0]
                    == single_keys(dims[i].1, facts.now.at())->Ok_0
        },
    decreases dims.len(),
{
    if dims.len() > 0 {
        let w = dims.drop_last();
        let n = dims.len() - 1;
        assert(distinct_dims(w)) by {
            assert forall|i: int, j: int| 0 <= i < j < w.len() implies (#[trigger] w[i]).0 != (
            #[trigger] w[j]).0 by {
                assert(dims[i].0 != dims[j].0);
            }
        }
        lemma_filled(w, name, vals, facts);
        assert(dims.last() == dims[n]);
        if filled_dims(dims, name, vals, facts) is Ok {
            let q = filled_dims(w, name, vals, facts)->Ok_0;
            let r = filled_dims(dims, name, vals, facts)->Ok_0;
            assert forall|i: int| 0 <= i < dims.len() && (#[trigger] dims[i]).0 != name implies
            single_keys(dims[i].1, facts.now.at()) is Ok by {
                if i < n {
                    assert(w[i] == dims[i]);
                }
            }
            assert forall|x: Seq<char>| #[trigger] r.dom().contains(x) <==> exists|i: int|
                0 <= i < dims.len() && (#[trigger] dims[i]).0 == x by {
                if q.dom().contains(x) {
                    let i = choose|i: int| 0 <= i < w.len() && (#[trigger] w[i]).0 == x;
                    assert(dims[i].0 == x);
                }
                if exists|i: int| 0 <= i < dims.len() && (#[trigger] dims[i]).0 == x {
                    let i = choose|i: int| 0 <= i < dims.len() && (#[trigger] dims[i]).0 == x;
                    if i < n {
                        assert(w[i].0 == x);
                    }
                }
            }
            assert forall|i: int| 0 <= i < dims.len() && (#[trigger] dims[i]).0 == name implies
            r[dims[i].0] == vals by {
                if i < n {
                    assert(dims[i].0 != dims[n].0);
                    assert(w[i] == dims[i]);
                }
            }
            assert forall|i: int| 0 <= i < dims.len() && (#[trigger] dims[i]).0 != name implies
            r[dims[i].0] == single_keys(dims[i].1, facts.now.at())->Ok_0 by {
                if i < n {
                    assert(dims[i].0 != dims[n].0);
                    assert(w[i] == dims[i]);
                }
            }
        } else if filled_dims(w, name, vals, facts) is Err {
            let i = choose|i: int|
                0 <= i < w.len() && (#[trigger] w[i]).0 != name && !(single_keys(
                    w[i].1,
                    facts.now.at(),
                ) is Ok);
            assert(dims[i] == w[i]);
        } else {
            assert(dims[n].0 != name);
        }
    }
}

/// What a mapping that transforms keys gives is loaded; where it gives none the load fails
/// with its message. One for specific keys loads exactly those, whatever the downstream key.
pub proof fn lemma_mapped_is_loaded(
    m: PartitionMapping,
    k: Option<KeyView>,
    down: Option<DefView>,
    up: Option<DefView>,
    facts: KeyFacts,
)
    ensures
        m matches PartitionMapping::SpecificPartitions { partition_keys } ==> resolution(
            m,
            k,
            down,
            up,
            facts,
        ) == Ok::<ResolutionView, ResolutionErrorView>(
            ResolutionView::Load(Some(KeyView::Single(texts(partition_keys@)))),
        ),
        k is Some && (m is Identity || m is AllPartitions || m is Static || m is TimeWindow
            || m is Multi || m is MultiToSingle) ==> match mapped(m, k->0, up, facts) {
            Ok(to) => resolution(m, k, down, up, facts) == Ok::<
                ResolutionView,
                ResolutionErrorView,
            >(ResolutionView::Load(Some(to))),
            Err(e) => resolution(m, k, down, up, facts) == Err::<
                ResolutionView,
                ResolutionErrorView,
            >(ResolutionErrorView::KeyMappingFailed(e)),
        },
        k is None && (m is ForKeys || m is Subset) ==> resolution(m, k, down, up, facts) is Err,
        m is Subset && up is None ==> resolution(m, k, down, up, facts) is Err,
{
}

/// A mapping to a subset loads the downstream key as it is where it is valid upstream, and
/// skips the upstream where it is not.
pub proof fn lemma_subset(k: KeyView, down: Option<DefView>, d: DefView, facts: KeyFacts)
    ensures
        ({
            let r = resolution(PartitionMapping::Subset, Some(k), down, Some(d), facts);
            let valid = key_valid(d, facts.now.at(), k, facts.readings);
            &&& valid is Ok && valid->Ok_0 ==> r == Ok::<ResolutionView, ResolutionErrorView>(
                ResolutionView::Load(Some(k)),
            )
            &&& valid is Ok && !valid->Ok_0 ==> r == Ok::<ResolutionView, ResolutionErrorView>(
                ResolutionView::Skip,
            )
            &&& valid is Err ==> r is Err
        }),
{
}

/// Without a downstream key a mapping that transforms keys loads the upstream whole.
pub proof fn lemma_no_key(
    m: PartitionMapping,
    down: Option<DefView>,
    up: Option<DefView>,
    facts: KeyFacts,
)
    ensures
        m is Identity || m is AllPartitions || m is Static || m is TimeWindow || m is Multi
            || m is MultiToSingle ==> resolution(m, None, down, up, facts) == Ok::<
            ResolutionView,
            ResolutionErrorView,
        >(ResolutionView::Load(None)),
{
}

/// Whether a selector names a key, or the key lies in its range.
pub open spec fn chosen(
    s: PartitionKeySelector,
    k: KeyView,
    down: Option<DefView>,
    facts: KeyFacts,
) -> bool {
    ||| (s matches PartitionKeySelector::Key(x) && x@ == k)
    ||| (s matches PartitionKeySelector::Range(x) && range_has(x, k, down, facts.readings))
}

/// A mapping for keys loads the upstream whole exactly for a downstream key that one of its
/// selectors names, or in whose range it lies; it skips it for every other key.
pub proof fn lemma_for_keys(
    selectors: Vec<PartitionKeySelector>,
    k: KeyView,
    down: Option<DefView>,
    up: Option<DefView>,
    facts: KeyFacts,
)
    ensures
        ({
            let r = resolution(
                PartitionMapping::ForKeys { selectors },
                Some(k),
                down,
                up,
                facts,
            );
            let wanted = exists|i: int|
                0 <= i < selectors@.len() && chosen(#[trigger] selectors@[i], k, down, facts);
            &&& wanted ==> r == Ok::<ResolutionView, ResolutionErrorView>(
                ResolutionView::Load(None),
            )
            &&& !wanted ==> r == Ok::<ResolutionView, ResolutionErrorView>(ResolutionView::Skip)
        }),
{
    let m = PartitionMapping::ForKeys { selectors };
    let s = m->selectors@;
    assert(s == selectors@);
    assert forall|i: int| 0 <= i < s.len() implies chosen(#[trigger] s[i], k, down, facts)
        == selector_matches(s[i], k, down, facts) by {}
    if exists|i: int| 0 <= i < s.len() && chosen(#[trigger] s[i], k, down, facts) {
        let i = choose|i: int| 0 <= i < s.len() && chosen(#[trigger] s[i], k, down, facts);
        assert(selector_matches(s[i], k, down, facts));
        assert(resolution(PartitionMapping::ForKeys { selectors }, Some(k), down, up, facts) == Ok::<
            ResolutionView,
            ResolutionErrorView,
        >(ResolutionView::Load(None)));
    } else if exists|i: int| 0 <= i < s.len() && selector_matches(#[trigger] s[i], k, down, facts) {
        let i = choose|i: int|
            0 <= i < s.len() && selector_matches(#[trigger] s[i], k, down, facts);
        assert(chosen(s[i], k, down, facts));
    } else {
        assert(resolution(PartitionMapping::ForKeys { selectors }, Some(k), down, up, facts) == Ok::<
            ResolutionView,
            ResolutionErrorView,
        >(ResolutionView::Skip));
    }
}

} // verus!
