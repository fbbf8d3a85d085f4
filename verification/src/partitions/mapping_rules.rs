//! Which mappings a dependency edge admits.
use vstd::prelude::*;
use vstd::string::*;
use crate::errors::{fault_text, FaultView};
use crate::names::{pair_names, NameMap};
use crate::partitions::debug::key_form;
use crate::partitions::definition::{
    all_keys, def_view, def_wf, dims_of, find_dim, lemma_dims_of, same_variants, single_keys,
    variant_of, DefView, PartitionsDefinition,
};
use crate::partitions::facts::KeyFacts;
use crate::partitions::grid_compat::compat_fault;
use crate::partitions::key_range::{against_fault, opt_def};
use crate::partitions::key_set::{lemma_first_occurrences, OrderedKeySet};
use crate::partitions::mapping::{lemma_mappings_wf, PartitionKeySelector, PartitionMapping};
use crate::partitions::mapping_errors::{
    DimErrView, DimensionErrorKind, MapErrView, MappingValidationError, Side,
};
use crate::partitions::meet::{all_in, dim_names, last_dim, names_of_dims, same_members};
use crate::partitions::rules::key_valid;
use crate::text::{
    has_text, join_texts, joined, lemma_sorted_lists_set, same_text, say5, set_in_order, sort_texts,
    sorted_texts, texts,
};

verus! {

/// The variant name of a mapping.
pub open spec fn mapping_name(m: PartitionMapping) -> Seq<char> {
    match m {
        PartitionMapping::Identity => "Identity"@,
        PartitionMapping::AllPartitions => "AllPartitions"@,
        PartitionMapping::Static { .. } => "Static"@,
        PartitionMapping::TimeWindow { .. } => "TimeWindow"@,
        PartitionMapping::Multi { .. } => "Multi"@,
        PartitionMapping::MultiToSingle { .. } => "MultiToSingle"@,
        PartitionMapping::SpecificPartitions { .. } => "SpecificPartitions"@,
        PartitionMapping::ForKeys { .. } => "ForKeys"@,
        PartitionMapping::Subset => "Subset"@,
    }
}

/// The single-dimension keys of a scheme; one of several dimensions has none.
pub open spec fn plain_keys(d: DefView, now: int) -> Result<Seq<Seq<char>>, FaultView> {
    match d {
        DefView::Multi(_) => match all_keys(d, now) {
            Ok(_) => Ok(Seq::empty()),
            Err(e) => Err(e),
        },
        _ => single_keys(d, now),
    }
}

/// The texts of `a` that `b` does not have, in the order of `a`.
pub open spec fn outside(a: Seq<Seq<char>>, b: Seq<Seq<char>>) -> Seq<Seq<char>>
    decreases a.len(),
{
    if a.len() == 0 {
        a
    } else if b.contains(a.last()) {
        outside(a.drop_last(), b)
    } else {
        outside(a.drop_last(), b).push(a.last())
    }
}

/// Nothing lies outside exactly when one list has every text of the other.
pub proof fn lemma_outside(a: Seq<Seq<char>>, b: Seq<Seq<char>>)
    ensures
        outside(a, b).len() == 0 <==> forall|k: Seq<char>| #[trigger]
            a.contains(k) ==> b.contains(k),
        outside(a, b).len() > 0 ==> a.contains(outside(a, b)[0]) && !b.contains(outside(a, b)[0]),
    decreases a.len(),
{
    if a.len() > 0 {
        let w = a.drop_last();
        lemma_outside(w, b);
        assert(a.contains(a[a.len() - 1]));
        if outside(w, b).len() > 0 {
            let k = outside(w, b)[0];
            let i = choose|i: int| 0 <= i < w.len() && w[i] == k;
            assert(a[i] == k);
            assert(a.contains(k));
            assert(outside(a, b)[0] == k);
        } else {
            assert forall|k: Seq<char>| a.contains(k) && b.contains(a.last()) implies b.contains(
                k,
            ) by {
                let i = choose|i: int| 0 <= i < a.len() && a[i] == k;
                if i < w.len() {
                    assert(w[i] == k);
                    assert(w.contains(k));
                }
            }
            assert(forall|k: Seq<char>| #[trigger] w.contains(k) ==> b.contains(k));
        }
    }
}

/// The texts of a list that another does not have.
fn outside_of(a: &Vec<String>, b: &Vec<String>) -> (r: Vec<String>)
    ensures
        texts(r@) == outside(texts(a@), texts(b@)),
{
    let mut out: Vec<String> = Vec::new();
    let mut i: usize = 0;
    let ghost t = texts(a@);
    proof {
        assert(t.take(0) =~= Seq::empty());
        assert(texts(out@) =~= Seq::empty());
    }
    while i < a.len()
        invariant
            t == texts(a@),
            i <= a@.len(),
            texts(out@) == outside(t.take(i as int), texts(b@)),
        decreases a@.len() - i,
    {
        proof {
            assert(t.take(i + 1).drop_last() =~= t.take(i as int));
            assert(t.take(i + 1).last() == a@[i as int]@);
        }
        if !has_text(b, a[i].as_str()) {
            let ghost prev = texts(out@);
            out.push(a[i].clone());
            proof {
                assert(texts(out@) =~= prev.push(a@[i as int]@));
            }
        }
        i += 1;
    }
    proof {
        assert(t.take(i as int) =~= t);
    }
    out
}

/// The key by which a list of keys fails to be keys of a side.
pub open spec fn foreign(
    keys: Seq<Seq<char>>,
    known: Seq<Seq<char>>,
    side: Side,
    mapping: Seq<char>,
) -> Option<MapErrView> {
    if outside(keys, known).len() > 0 {
        Some(MapErrView::KeyNotInDefinition(outside(keys, known)[0], side, mapping))
    } else {
        None
    }
}

/// The targets of a list of entries of a static mapping.
pub open spec fn target_texts(s: Seq<(String, String)>) -> Seq<Seq<char>> {
    s.map_values(|p: (String, String)| p.1@)
}

/// The downstream dimensions that a list of dimension mappings targets.
pub open spec fn targets(s: Seq<(String, (String, PartitionMapping))>) -> Seq<Seq<char>> {
    s.map_values(|p: (String, (String, PartitionMapping))| p.1.0@)
}

/// Why an Identity mapping does not fit two schemes of one kind, apart from what
/// concerns the dimensions one by one.
pub open spec fn identity_fault(down: DefView, up: DefView) -> Option<MapErrView> {
    match (down, up) {
        (DefView::TimeWindow(d), DefView::TimeWindow(u)) => match compat_fault(
            "Identity"@,
            d,
            u,
        ) {
            Some(e) => Some(MapErrView::DefinitionError(e)),
            None => None,
        },
        (DefView::Dynamic(d), DefView::Dynamic(u)) => if d != u {
            Some(
                MapErrView::DefinitionError(
                    "Identity mapping requires matching dynamic namespaces: downstream '"@ + d
                        + "' != upstream '"@ + u + "'"@,
                ),
            )
        } else {
            None
        },
        (DefView::Static(d), DefView::Static(u)) => if outside(d, u).len() > 0 {
            Some(
                MapErrView::DefinitionError(
                    "Identity mapping requires every downstream key to exist upstream; missing upstream: "@
                        + joined(sorted_texts(outside(d, u)), ", "@),
                ),
            )
        } else {
            None
        },
        (DefView::Multi(d), DefView::Multi(u)) => if !same_members(dim_names(d), dim_names(u)) {
            Some(
                MapErrView::DefinitionError(
                    "Identity mapping requires matching Multi dimensions: downstream ["@
                        + joined(set_in_order(dim_names(d).to_set()), ", "@) + "] != upstream ["@
                        + joined(set_in_order(dim_names(u).to_set()), ", "@) + "]"@,
                ),
            )
        } else {
            None
        },
        _ => None,
    }
}

/// The names of a list in order, each once.
fn names_in_order(names: &Vec<String>) -> (r: Vec<String>)
    ensures
        texts(r@) == set_in_order(texts(names@).to_set()),
{
    let ghost t = texts(names@);
    let distinct = OrderedKeySet::new(crate::text::copy_texts(names));
    let v = distinct.iter();
    proof {
        lemma_first_occurrences(t);
        let s = t.to_set();
        assert forall|k: Seq<char>| #[trigger] texts(v@).contains(k) <==> s.contains(k) by {
            assert(t.contains(k) <==> s.contains(k));
        }
        lemma_sorted_lists_set(texts(v@), s);
    }
    sort_texts(v)
}

/// Why a mapping is not valid between two partitioned assets.
pub open spec fn pair_fault(m: PartitionMapping, down: DefView, up: DefView, now: int) -> Option<
    MapErrView,
>
    decreases m, down,
{
    match m {
        PartitionMapping::Identity => if !same_variants(down, up) {
            Some(
                MapErrView::DefinitionTypeMismatch("Identity"@, variant_of(down), variant_of(up)),
            )
        } else {
            match identity_fault(down, up) {
                Some(e) => Some(e),
                None => match (down, up) {
                    (DefView::Multi(d), DefView::Multi(u)) => same_dims_fault(m, d, u, now),
                    _ => None,
                },
            }
        },
        PartitionMapping::TimeWindow { .. } => match (down, up) {
            (DefView::TimeWindow(d), DefView::TimeWindow(u)) => match compat_fault(
                "time_window"@,
                d,
                u,
            ) {
                Some(e) => Some(MapErrView::DefinitionError(e)),
                None => None,
            },
            (DefView::TimeWindow(_), _) => Some(
                MapErrView::RequiredDefinitionType(
                    "TimeWindow"@,
                    Side::Upstream,
                    "TimeWindow"@,
                    variant_of(up),
                ),
            ),
            _ => Some(
                MapErrView::RequiredDefinitionType(
                    "TimeWindow"@,
                    Side::Downstream,
                    "TimeWindow"@,
                    variant_of(down),
                ),
            ),
        },
        PartitionMapping::Static { mapping } => match plain_keys(down, now) {
            Err(e) => Some(MapErrView::DefinitionError(fault_text(e))),
            Ok(dk) => match foreign(
                pair_names(mapping.entries@),
                dk,
                Side::Downstream,
                "Static"@,
            ) {
                Some(e) => Some(e),
                None => match plain_keys(up, now) {
                    Err(e) => Some(MapErrView::DefinitionError(fault_text(e))),
                    Ok(uk) => foreign(
                        target_texts(mapping.entries@),
                        uk,
                        Side::Upstream,
                        "Static"@,
                    ),
                },
            },
        },
        PartitionMapping::AllPartitions => None,
        PartitionMapping::SpecificPartitions { .. } => Some(
            MapErrView::IncompatibleMappingForShape("SpecificPartitions"@, true, true),
        ),
        PartitionMapping::ForKeys { .. } => Some(
            MapErrView::IncompatibleMappingForShape("ForKeys"@, true, true),
        ),
        PartitionMapping::Subset => if !same_variants(down, up) {
            Some(MapErrView::DefinitionTypeMismatch("Subset"@, variant_of(down), variant_of(up)))
        } else {
            match (down, up) {
                (DefView::Static(d), DefView::Static(u)) => if outside(u, d).len() > 0 {
                    Some(MapErrView::UpstreamKeysNotSubset(sorted_texts(outside(u, d))))
                } else {
                    None
                },
                _ => None,
            }
        },
        PartitionMapping::MultiToSingle { dimension_name, partition_mapping } => {
            match (down, up) {
                (DefView::Multi(_), DefView::Multi(_)) => Some(
                    MapErrView::Dimension(DimErrView::BothSidesMulti),
                ),
                (DefView::Multi(dims), _) => match find_dim(dims, dimension_name@) {
                    None => Some(
                        MapErrView::Dimension(
                            DimErrView::MultiToSingleDimMissing(
                                dimension_name@,
                                Side::Downstream,
                                dim_names(dims),
                            ),
                        ),
                    ),
                    Some(d) => in_dimension(
                        dimension_name@,
                        pair_fault(*partition_mapping.0, d, up, now),
                    ),
                },
                (_, DefView::Multi(dims)) => match find_dim(dims, dimension_name@) {
                    None => Some(
                        MapErrView::Dimension(
                            DimErrView::MultiToSingleDimMissing(
                                dimension_name@,
                                Side::Upstream,
                                dim_names(dims),
                            ),
                        ),
                    ),
                    Some(d) => in_dimension(
                        dimension_name@,
                        pair_fault(*partition_mapping.0, down, d, now),
                    ),
                },
                _ => Some(
                    MapErrView::Dimension(
                        DimErrView::NeitherSideMulti(variant_of(down), variant_of(up)),
                    ),
                ),
            }
        },
        PartitionMapping::Multi { dimension_mappings } => match (down, up) {
            (DefView::Multi(d), DefView::Multi(u)) => if outside(
                dim_names(u),
                pair_names(dimension_mappings.entries@),
            ).len() > 0 {
                Some(
                    MapErrView::Dimension(
                        DimErrView::MissingMapping(
                            outside(dim_names(u), pair_names(dimension_mappings.entries@))[0],
                        ),
                    ),
                )
            } else {
                match entries_fault(dimension_mappings.entries@, d, u, now) {
                    Some(e) => Some(e),
                    None => if outside(
                        dim_names(d),
                        targets(dimension_mappings.entries@),
                    ).len() > 0 {
                        Some(
                            MapErrView::Dimension(
                                DimErrView::NotCovered(
                                    outside(dim_names(d), targets(dimension_mappings.entries@))[0],
                                ),
                            ),
                        )
                    } else {
                        None
                    },
                }
            },
            (DefView::Multi(_), _) => Some(
                MapErrView::RequiredDefinitionType(
                    "Multi"@,
                    Side::Upstream,
                    "Multi"@,
                    variant_of(up),
                ),
            ),
            _ => Some(
                MapErrView::RequiredDefinitionType(
                    "Multi"@,
                    Side::Downstream,
                    "Multi"@,
                    variant_of(down),
                ),
            ),
        },
    }
}

/// A fault inside a dimension.
pub open spec fn in_dimension(dim: Seq<char>, e: Option<MapErrView>) -> Option<MapErrView> {
    match e {
        Some(v) => Some(MapErrView::InDimension(dim, Box::new(v))),
        None => None,
    }
}

/// The first fault of a mapping between dimensions of the same names.
pub open spec fn same_dims_fault(
    m: PartitionMapping,
    down: Seq<(Seq<char>, DefView)>,
    up: Seq<(Seq<char>, DefView)>,
    now: int,
) -> Option<MapErrView>
    decreases m, down,
{
    if down.len() == 0 {
        None
    } else {
        match same_dims_fault(m, down.drop_last(), up, now) {
            Some(e) => Some(e),
            None => match last_dim(up, down.last().0) {
                Some(u) => in_dimension(
                    down.last().0,
                    pair_fault(m, down.last().1, u, now),
                ),
                None => None,
            },
        }
    }
}

/// The first fault of a list of dimension mappings.
pub open spec fn entries_fault(
    s: Seq<(String, (String, PartitionMapping))>,
    down: Seq<(Seq<char>, DefView)>,
    up: Seq<(Seq<char>, DefView)>,
    now: int,
) -> Option<MapErrView>
    decreases s, down,
{
    if s.len() == 0 {
        None
    } else {
        match entries_fault(s.drop_last(), down, up, now) {
            Some(e) => Some(e),
            None => {
                let up_dim = s.last().0@;
                let down_dim = s.last().1.0@;
                match (last_dim(up, up_dim), last_dim(down, down_dim)) {
                    (None, _) => Some(
                        MapErrView::Dimension(DimErrView::MultiUpstreamDimMissing(up_dim)),
                    ),
                    (Some(_), None) => Some(
                        MapErrView::Dimension(DimErrView::MultiDownstreamDimMissing(down_dim)),
                    ),
                    (Some(u), Some(d)) => if targets(s.drop_last()).contains(down_dim) {
                        Some(MapErrView::Dimension(DimErrView::TargetedTwice(down_dim)))
                    } else {
                        in_dimension(down_dim, pair_fault(s.last().1.1, d, u, now))
                    },
                }
            },
        }
    }
}

proof fn lemma_same_dims_prefix(
    m: PartitionMapping,
    down: Seq<(Seq<char>, DefView)>,
    up: Seq<(Seq<char>, DefView)>,
    now: int,
    n: int,
)
    requires
        0 <= n <= down.len(),
        same_dims_fault(m, down.take(n), up, now) is Some,
    ensures
        same_dims_fault(m, down, up, now) == same_dims_fault(m, down.take(n), up, now),
    decreases down.len(),
{
    if n < down.len() {
        assert(down.drop_last().take(n) =~= down.take(n));
        lemma_same_dims_prefix(m, down.drop_last(), up, now, n);
    } else {
        assert(down.take(n) =~= down);
    }
}

proof fn lemma_entries_prefix(
    s: Seq<(String, (String, PartitionMapping))>,
    down: Seq<(Seq<char>, DefView)>,
    up: Seq<(Seq<char>, DefView)>,
    now: int,
    n: int,
)
    requires
        0 <= n <= s.len(),
        entries_fault(s.take(n), down, up, now) is Some,
    ensures
        entries_fault(s, down, up, now) == entries_fault(s.take(n), down, up, now),
    decreases s.len(),
{
    if n < s.len() {
        assert(s.drop_last().take(n) =~= s.take(n));
        lemma_entries_prefix(s.drop_last(), down, up, now, n);
    } else {
        assert(s.take(n) =~= s);
    }
}

/// Why a mapping is not valid between a partitioned asset and an unpartitioned
/// upstream.
pub open spec fn from_unpartitioned_fault(
    m: PartitionMapping,
    down: DefView,
    facts: KeyFacts,
) -> Option<MapErrView> {
    match m {
        PartitionMapping::AllPartitions => None,
        PartitionMapping::ForKeys { selectors } => selectors_fault(selectors@, down, facts),
        _ => Some(MapErrView::IncompatibleMappingForShape(mapping_name(m), true, false)),
    }
}

/// Why a selector does not fit a scheme.
pub open spec fn selector_fault(s: PartitionKeySelector, down: DefView, facts: KeyFacts) -> Option<
    MapErrView,
> {
    match s {
        PartitionKeySelector::Key(k) => match key_valid(
            down,
            facts.now.at(),
            k@,
            facts.readings,
        ) {
            Err(e) => Some(MapErrView::DefinitionError(fault_text(e))),
            Ok(true) => None,
            Ok(false) => Some(
                MapErrView::KeyNotInDefinition(key_form(k@), Side::Downstream, "ForKeys"@),
            ),
        },
        PartitionKeySelector::Range(r) => match against_fault(r, down, facts.readings) {
            Some(e) => Some(MapErrView::DefinitionError(e)),
            None => None,
        },
    }
}

/// The first fault of a list of selectors.
pub open spec fn selectors_fault(
    s: Seq<PartitionKeySelector>,
    down: DefView,
    facts: KeyFacts,
) -> Option<MapErrView>
    decreases s.len(),
{
    if s.len() == 0 {
        None
    } else {
        match selectors_fault(s.drop_last(), down, facts) {
            Some(e) => Some(e),
            None => selector_fault(s.last(), down, facts),
        }
    }
}

proof fn lemma_selectors_prefix(
    s: Seq<PartitionKeySelector>,
    down: DefView,
    facts: KeyFacts,
    n: int,
)
    requires
        0 <= n <= s.len(),
        selectors_fault(s.take(n), down, facts) is Some,
    ensures
        selectors_fault(s, down, facts) == selectors_fault(s.take(n), down, facts),
    decreases s.len(),
{
    if n < s.len() {
        assert(s.drop_last().take(n) =~= s.take(n));
        lemma_selectors_prefix(s.drop_last(), down, facts, n);
    } else {
        assert(s.take(n) =~= s);
    }
}

/// Why a mapping is not valid between an unpartitioned asset and a partitioned
/// upstream.
pub open spec fn to_partitioned_fault(m: PartitionMapping, up: DefView, now: int) -> Option<
    MapErrView,
> {
    match m {
        PartitionMapping::AllPartitions => None,
        PartitionMapping::SpecificPartitions { partition_keys } => match plain_keys(up, now) {
            Err(e) => Some(MapErrView::DefinitionError(fault_text(e))),
            Ok(uk) => foreign(
                texts(partition_keys@),
                uk,
                Side::Upstream,
                "SpecificPartitions"@,
            ),
        },
        _ => Some(MapErrView::IncompatibleMappingForShape(mapping_name(m), false, true)),
    }
}

/// Why a mapping is not valid for a dependency edge.
pub open spec fn edge_fault(
    m: Option<PartitionMapping>,
    down: Option<DefView>,
    up: Option<DefView>,
    facts: KeyFacts,
) -> Option<MapErrView> {
    match (down, up) {
        (Some(d), Some(u)) => match m {
            None => pair_fault(PartitionMapping::Identity, d, u, facts.now.at()),
            Some(x) => pair_fault(x, d, u, facts.now.at()),
        },
        (Some(d), None) => match m {
            None => None,
            Some(x) => from_unpartitioned_fault(x, d, facts),
        },
        (None, Some(u)) => match m {
            None => Some(MapErrView::ExplicitMappingRequired),
            Some(x) => to_partitioned_fault(x, u, facts.now.at()),
        },
        (None, None) => match m {
            None => None,
            Some(PartitionMapping::Identity) => None,
            Some(x) => Some(MapErrView::MappingOnUnpartitionedPair(mapping_name(x))),
        },
    }
}

/// Whether a validation ends as the specification says.
pub open spec fn says_map_fault(
    r: Result<(), MappingValidationError>,
    spec: Option<MapErrView>,
) -> bool {
    match r {
        Ok(_) => spec is None,
        Err(e) => spec == Some(e@),
    }
}

/// What an optional mapping is.
pub open spec fn opt_mapping(m: Option<&PartitionMapping>) -> Option<PartitionMapping> {
    match m {
        Some(x) => Some(*x),
        None => None,
    }
}

/// The single-dimension keys of a scheme.
fn single_dim_key_set(def: &PartitionsDefinition, facts: &KeyFacts) -> (r: Result<
    Vec<String>,
    MappingValidationError,
>)
    requires
        def.wf(),
        facts.wf(),
    ensures
        match r {
            Ok(v) => plain_keys(def@, facts.now.at()) == Ok::<Seq<Seq<char>>, FaultView>(
                texts(v@),
            ),
            Err(e) => plain_keys(def@, facts.now.at()) matches Err(f) && e@
                == MapErrView::DefinitionError(fault_text(f)),
        },
{
    match def {
        PartitionsDefinition::Multi { .. } => match def.get_partition_keys_at(facts.now) {
            Ok(_) => {
                let none: Vec<String> = Vec::new();
                proof {
                    assert(texts(none@) =~= Seq::empty());
                }
                Ok(none)
            },
            Err(e) => Err(MappingValidationError::DefinitionError(e.text())),
        },
        _ => match def.enumerate_single_dim_keys_at(facts.now) {
            Ok(v) => Ok(v),
            Err(e) => Err(MappingValidationError::DefinitionError(e.text())),
        },
    }
}

fn check_known(
    keys: &Vec<String>,
    known: &Vec<String>,
    side: Side,
    mapping: &'static str,
) -> (r: Result<(), MappingValidationError>)
    ensures
        says_map_fault(r, foreign(texts(keys@), texts(known@), side, mapping@)),
{
    let lost = outside_of(keys, known);
    proof {
        assert(texts(lost@).len() == lost@.len());
    }
    if lost.len() > 0 {
        proof {
            assert(texts(lost@)[0] == lost@[0]@);
        }
        Err(MappingValidationError::KeyNotInDefinition { key: lost[0].clone(), side, mapping })
    } else {
        Ok(())
    }
}

/// The last dimension of a list that has a name.
fn last_named<'a>(dims: &'a Vec<(String, PartitionsDefinition)>, name: &str) -> (r: Option<
    &'a PartitionsDefinition,
>)
    ensures
        match r {
            Some(d) => {
                &&& last_dim(dims_of(dims@), name@) == Some(d@)
                &&& exists|i: int| 0 <= i < dims@.len() && *d == (#[trigger] dims@[i]).1
            },
            None => last_dim(dims_of(dims@), name@) is None,
        },
{
    let ghost v = dims_of(dims@);
    let mut j: usize = dims.len();
    proof {
        lemma_dims_of(dims@);
        assert(v.take(j as int) =~= v);
    }
    while j > 0
        invariant
            v == dims_of(dims@),
            v.len() == dims@.len(),
            forall|i: int|
                0 <= i < dims@.len() ==> #[trigger] v[i] == (dims@[i].0@, def_view(dims@[i].1)),
            j <= dims@.len(),
            last_dim(v, name@) == last_dim(v.take(j as int), name@),
        decreases j,
    {
        proof {
            assert(v.take(j as int).drop_last() =~= v.take(j - 1));
            assert(v.take(j as int).last() == v[j - 1]);
        }
        if same_text(dims[j - 1].0.as_str(), name) {
            return Some(&dims[j - 1].1);
        }
        j -= 1;
    }
    None
}

fn in_dim(dim: &str, e: MappingValidationError) -> (r: MappingValidationError)
    ensures
        Some(r@) == in_dimension(dim@, Some(e@)),
{
    MappingValidationError::InDimension { dim: dim.to_owned(), source: Box::new(e) }
}

fn target_names(m: &NameMap<(String, PartitionMapping)>) -> (r: Vec<String>)
    ensures
        texts(r@) == targets(m.entries@),
{
    let mut out: Vec<String> = Vec::new();
    let mut i: usize = 0;
    while i < m.entries.len()
        invariant
            i <= m.entries@.len(),
            out@.len() == i,
            forall|j: int| 0 <= j < i ==> (#[trigger] out@[j])@ == m.entries@[j].1.0@,
        decreases m.entries@.len() - i,
    {
        out.push(m.entries[i].1.0.clone());
        i += 1;
    }
    proof {
        assert(texts(out@) =~= targets(m.entries@));
    }
    out
}

fn target_keys(m: &NameMap<String>) -> (r: Vec<String>)
    ensures
        texts(r@) == target_texts(m.entries@),
{
    let mut out: Vec<String> = Vec::new();
    let mut i: usize = 0;
    while i < m.entries.len()
        invariant
            i <= m.entries@.len(),
            out@.len() == i,
            forall|j: int| 0 <= j < i ==> (#[trigger] out@[j])@ == m.entries@[j].1@,
        decreases m.entries@.len() - i,
    {
        out.push(m.entries[i].1.clone());
        i += 1;
    }
    proof {
        assert(texts(out@) =~= target_texts(m.entries@));
    }
    out
}

fn validate_identity(down: &PartitionsDefinition, up: &PartitionsDefinition) -> (r: Result<
    (),
    MappingValidationError,
>)
    requires
        down.wf(),
        up.wf(),
    ensures
        says_map_fault(r, identity_fault(down@, up@)),
{
    match (down, up) {
        (
            PartitionsDefinition::TimeWindow { grid: d },
            PartitionsDefinition::TimeWindow { grid: u },
        ) => match d.resolves_on("Identity", u) {
            Ok(_) => Ok(()),
            Err(e) => Err(MappingValidationError::DefinitionError(e)),
        },
        (
            PartitionsDefinition::Dynamic { name: d },
            PartitionsDefinition::Dynamic { name: u },
        ) => {
            if same_text(d.as_str(), u.as_str()) {
                Ok(())
            } else {
                Err(
                    MappingValidationError::DefinitionError(
                        say5(
                            "Identity mapping requires matching dynamic namespaces: downstream '",
                            d.as_str(),
                            "' != upstream '",
                            u.as_str(),
                            "'",
                        ),
                    ),
                )
            }
        },
        (
            PartitionsDefinition::Static { keys: d },
            PartitionsDefinition::Static { keys: u },
        ) => {
            let missing = outside_of(&d.iter(), &u.iter());
            proof {
                assert(texts(missing@).len() == missing@.len());
            }
            if missing.len() > 0 {
                let mut s =
                    "Identity mapping requires every downstream key to exist upstream; missing upstream: ".to_owned();
                s.append(join_texts(&sort_texts(missing), ", ").as_str());
                Err(MappingValidationError::DefinitionError(s))
            } else {
                Ok(())
            }
        },
        (
            PartitionsDefinition::Multi { dimensions: d },
            PartitionsDefinition::Multi { dimensions: u },
        ) => {
            let dn = names_of_dims(d);
            let un = names_of_dims(u);
            if !all_in(&dn, &un) || !all_in(&un, &dn) {
                Err(
                    MappingValidationError::DefinitionError(
                        say5(
                            "Identity mapping requires matching Multi dimensions: downstream [",
                            join_texts(&names_in_order(&dn), ", ").as_str(),
                            "] != upstream [",
                            join_texts(&names_in_order(&un), ", ").as_str(),
                            "]",
                        ),
                    ),
                )
            } else {
                proof {
                    assert(same_members(texts(dn@), texts(un@)));
                }
                Ok(())
            }
        },
        _ => Ok(()),
    }
}

impl PartitionMapping {
    /// Variant name as a string (e.g. "Identity", "Multi").
    pub fn variant_name(&self) -> (r: &'static str)
        ensures
            r@ == mapping_name(*self),
    {
        match self {
            PartitionMapping::Identity => "Identity",
            PartitionMapping::AllPartitions => "AllPartitions",
            PartitionMapping::Static { .. } => "Static",
            PartitionMapping::TimeWindow { .. } => "TimeWindow",
            PartitionMapping::Multi { .. } => "Multi",
            PartitionMapping::MultiToSingle { .. } => "MultiToSingle",
            PartitionMapping::SpecificPartitions { .. } => "SpecificPartitions",
            PartitionMapping::ForKeys { .. } => "ForKeys",
            PartitionMapping::Subset => "Subset",
        }
    }

    /// Validate a dependency edge: whether the mapping is allowed for the shape of
    /// the edge, and whether it is valid against the partition definitions.
    pub fn validate_edge(
        mapping: Option<&PartitionMapping>,
        downstream: Option<&PartitionsDefinition>,
        upstream: Option<&PartitionsDefinition>,
        facts: &KeyFacts,
    ) -> (r: Result<(), MappingValidationError>)
        requires
            mapping matches Some(m) ==> m.wf(),
            downstream matches Some(d) ==> d.wf(),
            upstream matches Some(d) ==> d.wf(),
            facts.wf(),
        ensures
            says_map_fault(
                r,
                edge_fault(opt_mapping(mapping), opt_def(downstream), opt_def(upstream), *facts),
            ),
    {
        match (downstream, upstream) {
            (Some(down), Some(up)) => match mapping {
                None => PartitionMapping::Identity.validate_partitioned_pair(down, up, facts),
                Some(m) => m.validate_partitioned_pair(down, up, facts),
            },
            (Some(down), None) => match mapping {
                None => Ok(()),
                Some(m) => m.validate_partitioned_to_unpartitioned(down, facts),
            },
            (None, Some(up)) => match mapping {
                None => Err(MappingValidationError::ExplicitMappingRequired),
                Some(m) => m.validate_unpartitioned_to_partitioned(up, facts),
            },
            (None, None) => match mapping {
                None => Ok(()),
                Some(PartitionMapping::Identity) => Ok(()),
                Some(m) => Err(
                    MappingValidationError::MappingOnUnpartitionedPair {
                        mapping: m.variant_name(),
                    },
                ),
            },
        }
    }

    fn validate_partitioned_pair(
        &self,
        down: &PartitionsDefinition,
        up: &PartitionsDefinition,
        facts: &KeyFacts,
    ) -> (r: Result<(), MappingValidationError>)
        requires
            self.wf(),
            down.wf(),
            up.wf(),
            facts.wf(),
        ensures
            says_map_fault(r, pair_fault(*self, down@, up@, facts.now.at())),
        decreases self, down,
    {
        match self {
            PartitionMapping::Identity => {
                if !down.same_variant(up) {
                    return Err(
                        MappingValidationError::DefinitionTypeMismatch {
                            mapping: "Identity",
                            downstream: down.variant_name().to_owned(),
                            upstream: up.variant_name().to_owned(),
                        },
                    );
                }
                match validate_identity(down, up) {
                    Ok(_) => {},
                    Err(e) => {
                        return Err(e);
                    },
                }
                match (down, up) {
                    (
                        PartitionsDefinition::Multi { dimensions: d },
                        PartitionsDefinition::Multi { dimensions: u },
                    ) => {
                        proof {
                            lemma_dims_of(u@);
                        }
                        self.validate_same_dims(down, d, u, facts)
                    },
                    _ => Ok(()),
                }
            },
            PartitionMapping::TimeWindow { .. } => match (down, up) {
                (
                    PartitionsDefinition::TimeWindow { grid: d },
                    PartitionsDefinition::TimeWindow { grid: u },
                ) => match d.resolves_on("time_window", u) {
                    Ok(_) => Ok(()),
                    Err(e) => Err(MappingValidationError::DefinitionError(e)),
                },
                (PartitionsDefinition::TimeWindow { .. }, _) => Err(
                    MappingValidationError::RequiredDefinitionType {
                        mapping: "TimeWindow",
                        side: Side::Upstream,
                        expected: "TimeWindow",
                        found: up.variant_name().to_owned(),
                    },
                ),
                _ => Err(
                    MappingValidationError::RequiredDefinitionType {
                        mapping: "TimeWindow",
                        side: Side::Downstream,
                        expected: "TimeWindow",
                        found: down.variant_name().to_owned(),
                    },
                ),
            },
            PartitionMapping::Static { mapping } => {
                let down_keys = single_dim_key_set(down, facts)?;
                check_known(&mapping.names(), &down_keys, Side::Downstream, "Static")?;
                let up_keys = single_dim_key_set(up, facts)?;
                check_known(&target_keys(mapping), &up_keys, Side::Upstream, "Static")
            },
            PartitionMapping::AllPartitions => Ok(()),
            PartitionMapping::SpecificPartitions { .. } => Err(
                MappingValidationError::IncompatibleMappingForShape {
                    mapping: "SpecificPartitions",
                    downstream_partitioned: true,
                    upstream_partitioned: true,
                },
            ),
            PartitionMapping::ForKeys { .. } => Err(
                MappingValidationError::IncompatibleMappingForShape {
                    mapping: "ForKeys",
                    downstream_partitioned: true,
                    upstream_partitioned: true,
                },
            ),
            PartitionMapping::Subset => {
                if !down.same_variant(up) {
                    return Err(
                        MappingValidationError::DefinitionTypeMismatch {
                            mapping: "Subset",
                            downstream: down.variant_name().to_owned(),
                            upstream: up.variant_name().to_owned(),
                        },
                    );
                }
                match (down, up) {
                    (
                        PartitionsDefinition::Static { keys: d },
                        PartitionsDefinition::Static { keys: u },
                    ) => {
                        let extras = outside_of(&u.iter(), &d.iter());
                        proof {
                            assert(texts(extras@).len() == extras@.len());
                        }
                        if extras.len() > 0 {
                            Err(
                                MappingValidationError::UpstreamKeysNotSubset {
                                    extras: sort_texts(extras),
                                },
                            )
                        } else {
                            Ok(())
                        }
                    },
                    _ => Ok(()),
                }
            },
            PartitionMapping::MultiToSingle { dimension_name, partition_mapping } => {
                match (down, up) {
                    (PartitionsDefinition::Multi { .. }, PartitionsDefinition::Multi { .. }) => Err(
                        MappingValidationError::Dimension(DimensionErrorKind::BothSidesMulti),
                    ),
                    (PartitionsDefinition::Multi { dimensions }, _) => {
                        match down.dimension_def(dimension_name.as_str()) {
                            None => Err(
                                MappingValidationError::Dimension(
                                    DimensionErrorKind::MultiToSingleDimMissing {
                                        dim: dimension_name.clone(),
                                        side: Side::Downstream,
                                        available: names_of_dims(dimensions),
                                    },
                                ),
                            ),
                            Some(d) => match partition_mapping.0.validate_partitioned_pair(
                                d,
                                up,
                                facts,
                            ) {
                                Ok(_) => Ok(()),
                                Err(e) => Err(in_dim(dimension_name.as_str(), e)),
                            },
                        }
                    },
                    (_, PartitionsDefinition::Multi { dimensions }) => {
                        match up.dimension_def(dimension_name.as_str()) {
                            None => Err(
                                MappingValidationError::Dimension(
                                    DimensionErrorKind::MultiToSingleDimMissing {
                                        dim: dimension_name.clone(),
                                        side: Side::Upstream,
                                        available: names_of_dims(dimensions),
                                    },
                                ),
                            ),
                            Some(d) => match partition_mapping.0.validate_partitioned_pair(
                                down,
                                d,
                                facts,
                            ) {
                                Ok(_) => Ok(()),
                                Err(e) => Err(in_dim(dimension_name.as_str(), e)),
                            },
                        }
                    },
                    _ => Err(
                        MappingValidationError::Dimension(
                            DimensionErrorKind::NeitherSideMulti {
                                downstream: down.variant_name().to_owned(),
                                upstream: up.variant_name().to_owned(),
                            },
                        ),
                    ),
                }
            },
            PartitionMapping::Multi { dimension_mappings } => match (down, up) {
                (
                    PartitionsDefinition::Multi { dimensions: d },
                    PartitionsDefinition::Multi { dimensions: u },
                ) => {
                    let unmapped = outside_of(&names_of_dims(u), &dimension_mappings.names());
                    proof {
                        assert(texts(unmapped@).len() == unmapped@.len());
                    }
                    if unmapped.len() > 0 {
                        proof {
                            assert(texts(unmapped@)[0] == unmapped@[0]@);
                        }
                        return Err(
                            MappingValidationError::Dimension(
                                DimensionErrorKind::MissingMapping { dim: unmapped[0].clone() },
                            ),
                        );
                    }
                    proof {
                        lemma_dims_of(d@);
                        lemma_dims_of(u@);
                    }
                    match self.validate_entries(dimension_mappings, d, u, facts) {
                        Ok(_) => {},
                        Err(e) => {
                            return Err(e);
                        },
                    }
                    let open = outside_of(&names_of_dims(d), &target_names(dimension_mappings));
                    proof {
                        assert(texts(open@).len() == open@.len());
                    }
                    if open.len() > 0 {
                        proof {
                            assert(texts(open@)[0] == open@[0]@);
                        }
                        return Err(
                            MappingValidationError::Dimension(
                                DimensionErrorKind::NotCovered { dim: open[0].clone() },
                            ),
                        );
                    }
                    Ok(())
                },
                (PartitionsDefinition::Multi { .. }, _) => Err(
                    MappingValidationError::RequiredDefinitionType {
                        mapping: "Multi",
                        side: Side::Upstream,
                        expected: "Multi",
                        found: up.variant_name().to_owned(),
                    },
                ),
                _ => Err(
                    MappingValidationError::RequiredDefinitionType {
                        mapping: "Multi",
                        side: Side::Downstream,
                        expected: "Multi",
                        found: down.variant_name().to_owned(),
                    },
                ),
            },
        }
    }

    fn validate_same_dims(
        &self,
        down: &PartitionsDefinition,
        d: &Vec<(String, PartitionsDefinition)>,
        u: &Vec<(String, PartitionsDefinition)>,
        facts: &KeyFacts,
    ) -> (r: Result<(), MappingValidationError>)
        requires
            self.wf(),
            *down == (PartitionsDefinition::Multi { dimensions: *d }),
            def_wf(*down),
            forall|j: int| 0 <= j < u@.len() ==> def_wf((#[trigger] u@[j]).1),
            facts.wf(),
        ensures
            says_map_fault(
                r,
                same_dims_fault(*self, dims_of(d@), dims_of(u@), facts.now.at()),
            ),
        decreases self, d,
    {
        let ghost x = dims_of(d@);
        let ghost y = dims_of(u@);
        let ghost now = facts.now.at();
        let mut i: usize = 0;
        proof {
            lemma_dims_of(d@);
            assert(x.take(0) =~= Seq::empty());
        }
        while i < d.len()
            invariant
                self.wf(),
                facts.wf(),
                *down == (PartitionsDefinition::Multi { dimensions: *d }),
                x == dims_of(d@),
                y == dims_of(u@),
                now == facts.now.at(),
                x.len() == d@.len(),
                forall|j: int|
                    0 <= j < d@.len() ==> #[trigger] x[j] == (d@[j].0@, def_view(d@[j].1)),
                forall|j: int| 0 <= j < d@.len() ==> def_wf((#[trigger] d@[j]).1),
                forall|j: int| 0 <= j < u@.len() ==> def_wf((#[trigger] u@[j]).1),
                i <= d@.len(),
                same_dims_fault(*self, x.take(i as int), y, now) is None,
            decreases d@.len() - i,
        {
            proof {
                assert(decreases_to!(d => d@));
                assert(decreases_to!(d@ => d@[i as int]));
                assert(decreases_to!(d@[i as int] => d@[i as int].1));
                assert(x.take(i + 1).drop_last() =~= x.take(i as int));
                assert(x.take(i + 1).last() == x[i as int]);
            }
            if let Some(other) = last_named(u, d[i].0.as_str()) {
                match self.validate_partitioned_pair(&d[i].1, other, facts) {
                    Ok(_) => {},
                    Err(e) => {
                        proof {
                            lemma_same_dims_prefix(*self, x, y, now, i + 1);
                        }
                        return Err(in_dim(d[i].0.as_str(), e));
                    },
                }
            }
            i += 1;
        }
        proof {
            assert(x.take(i as int) =~= x);
        }
        Ok(())
    }

    fn validate_entries(
        &self,
        maps: &NameMap<(String, PartitionMapping)>,
        d: &Vec<(String, PartitionsDefinition)>,
        u: &Vec<(String, PartitionsDefinition)>,
        facts: &KeyFacts,
    ) -> (r: Result<(), MappingValidationError>)
        requires
            self.wf(),
            *self == (PartitionMapping::Multi { dimension_mappings: *maps }),
            forall|j: int| 0 <= j < d@.len() ==> def_wf((#[trigger] d@[j]).1),
            forall|j: int| 0 <= j < u@.len() ==> def_wf((#[trigger] u@[j]).1),
            facts.wf(),
        ensures
            says_map_fault(
                r,
                entries_fault(maps.entries@, dims_of(d@), dims_of(u@), facts.now.at()),
            ),
        decreases maps, d,
    {
        let ghost s = maps.entries@;
        let ghost x = dims_of(d@);
        let ghost y = dims_of(u@);
        let ghost now = facts.now.at();
        let mut seen: Vec<String> = Vec::new();
        let mut i: usize = 0;
        proof {
            assert(s.take(0) =~= Seq::empty());
            assert(texts(seen@) =~= targets(s.take(0)));
        }
        while i < maps.entries.len()
            invariant
                self.wf(),
                *self == (PartitionMapping::Multi { dimension_mappings: *maps }),
                facts.wf(),
                s == maps.entries@,
                x == dims_of(d@),
                y == dims_of(u@),
                now == facts.now.at(),
                forall|j: int| 0 <= j < d@.len() ==> def_wf((#[trigger] d@[j]).1),
                forall|j: int| 0 <= j < u@.len() ==> def_wf((#[trigger] u@[j]).1),
                i <= s.len(),
                texts(seen@) == targets(s.take(i as int)),
                entries_fault(s.take(i as int), x, y, now) is None,
            decreases s.len() - i,
        {
            proof {
                lemma_mappings_wf(s, i as int);
                assert(decreases_to!(maps => maps.entries));
                assert(decreases_to!(maps.entries => maps.entries@));
                assert(decreases_to!(maps.entries@ => maps.entries@[i as int]));
                assert(decreases_to!(maps.entries@[i as int] => maps.entries@[i as int].1));
                assert(decreases_to!(maps.entries@[i as int].1 => maps.entries@[i as int].1.1));
                assert(s.take(i + 1).drop_last() =~= s.take(i as int));
                assert(s.take(i + 1).last() == s[i as int]);
                if entries_fault(s.take(i + 1), x, y, now) is Some {
                    lemma_entries_prefix(s, x, y, now, i + 1);
                }
            }
            let up_dim = maps.entries[i].0.as_str();
            let down_dim = maps.entries[i].1.0.as_str();
            let up_sub = match last_named(u, up_dim) {
                Some(v) => v,
                None => {
                    return Err(
                        MappingValidationError::Dimension(
                            DimensionErrorKind::MultiUpstreamDimMissing { dim: up_dim.to_owned() },
                        ),
                    );
                },
            };
            let down_sub = match last_named(d, down_dim) {
                Some(v) => v,
                None => {
                    return Err(
                        MappingValidationError::Dimension(
                            DimensionErrorKind::MultiDownstreamDimMissing {
                                dim: down_dim.to_owned(),
                            },
                        ),
                    );
                },
            };
            if has_text(&seen, down_dim) {
                return Err(
                    MappingValidationError::Dimension(
                        DimensionErrorKind::TargetedTwice { dim: down_dim.to_owned() },
                    ),
                );
            }
            match maps.entries[i].1.1.validate_partitioned_pair(down_sub, up_sub, facts) {
                Ok(_) => {},
                Err(e) => {
                    return Err(in_dim(down_dim, e));
                },
            }
            let ghost prev = texts(seen@);
            seen.push(maps.entries[i].1.0.clone());
            proof {
                assert(texts(seen@) =~= prev.push(s[i as int].1.0@));
                assert(targets(s.take(i + 1)) =~= targets(s.take(i as int)).push(
                    s[i as int].1.0@,
                ));
            }
            i += 1;
        }
        proof {
            assert(s.take(i as int) =~= s);
        }
        Ok(())
    }

    fn validate_partitioned_to_unpartitioned(
        &self,
        down: &PartitionsDefinition,
        facts: &KeyFacts,
    ) -> (r: Result<(), MappingValidationError>)
        requires
            self.wf(),
            down.wf(),
            facts.wf(),
        ensures
            says_map_fault(r, from_unpartitioned_fault(*self, down@, *facts)),
    {
        match self {
            PartitionMapping::AllPartitions => Ok(()),
            PartitionMapping::ForKeys { selectors } => {
                let ghost s = selectors@;
                let mut i: usize = 0;
                proof {
                    assert(s.take(0) =~= Seq::empty());
                }
                while i < selectors.len()
                    invariant
                        down.wf(),
                        facts.wf(),
                        s == selectors@,
                        self == (PartitionMapping::ForKeys { selectors: *selectors }),
                        forall|j: int| 0 <= j < s.len() ==> (#[trigger] s[j]).wf(),
                        i <= s.len(),
                        selectors_fault(s.take(i as int), down@, *facts) is None,
                    decreases s.len() - i,
                {
                    proof {
                        assert(s[i as int].wf());
                        assert(s.take(i + 1).drop_last() =~= s.take(i as int));
                        assert(s.take(i + 1).last() == s[i as int]);
                        if selectors_fault(s.take(i + 1), down@, *facts) is Some {
                            lemma_selectors_prefix(s, down@, *facts, i + 1);
                        }
                    }
                    match &selectors[i] {
                        PartitionKeySelector::Key(k) => {
                            match down.validate_partition_key_at(k, facts.now, &facts.readings) {
                                Ok(true) => {},
                                Ok(false) => {
                                    return Err(
                                        MappingValidationError::KeyNotInDefinition {
                                            key: k.debug_text(),
                                            side: Side::Downstream,
                                            mapping: "ForKeys",
                                        },
                                    );
                                },
                                Err(e) => {
                                    return Err(MappingValidationError::DefinitionError(e.text()));
                                },
                            }
                        },
                        PartitionKeySelector::Range(range) => {
                            match range.validate_against(down, &facts.readings) {
                                Ok(_) => {},
                                Err(e) => {
                                    return Err(MappingValidationError::DefinitionError(e));
                                },
                            }
                        },
                    }
                    i += 1;
                }
                proof {
                    assert(s.take(i as int) =~= s);
                }
                Ok(())
            },
            other => Err(
                MappingValidationError::IncompatibleMappingForShape {
                    mapping: other.variant_name(),
                    downstream_partitioned: true,
                    upstream_partitioned: false,
                },
            ),
        }
    }

    fn validate_unpartitioned_to_partitioned(
        &self,
        up: &PartitionsDefinition,
        facts: &KeyFacts,
    ) -> (r: Result<(), MappingValidationError>)
        requires
            self.wf(),
            up.wf(),
            facts.wf(),
        ensures
            says_map_fault(r, to_partitioned_fault(*self, up@, facts.now.at())),
    {
        match self {
            PartitionMapping::AllPartitions => Ok(()),
            PartitionMapping::SpecificPartitions { partition_keys } => {
                let up_keys = single_dim_key_set(up, facts)?;
                check_known(partition_keys, &up_keys, Side::Upstream, "SpecificPartitions")
            },
            other => Err(
                MappingValidationError::IncompatibleMappingForShape {
                    mapping: other.variant_name(),
                    downstream_partitioned: false,
                    upstream_partitioned: true,
                },
            ),
        }
    }
}

} // verus!
