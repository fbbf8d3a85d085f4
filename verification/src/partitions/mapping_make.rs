//! The constructors of mappings and their printed form.
use vstd::prelude::*;
use vstd::string::*;
use crate::errors::{Fault, FaultKind, FaultView};
use crate::names::{lemma_pairs_len, lemma_pairs_value, NameMap};
use crate::partitions::debug::{selector_texts, selectors_form};
use crate::partitions::mapping::{
    lemma_mapping_decreases, lemma_mappings_wf, mapping_wf, mappings_wf, BoxedMapping,
    PartitionKeySelector, PartitionMapping,
};
use crate::text::{
    join_texts, joined, quoted, quoted_list, quoted_list_text, quoted_text, same_text, say3, say5,
    signed_decimal, signed_decimal_text, sort_texts, sorted_texts, texts,
};

verus! {

/// What a dimension of a Multi mapping is given.
#[derive(Debug)]
pub enum MultiValue {
    /// A mapping to the downstream dimension of the same name.
    Mapping(PartitionMapping),
    /// A downstream dimension and the mapping to it.
    Pair(String, PartitionMapping),
    /// Something else.
    Other,
}

/// The mapping of a value.
pub open spec fn value_mapping(v: MultiValue) -> PartitionMapping {
    match v {
        MultiValue::Mapping(m) => m,
        MultiValue::Pair(_, m) => m,
        MultiValue::Other => PartitionMapping::Identity,
    }
}

/// What is wrong with a value of a Multi mapping.
pub open spec fn value_fault(v: MultiValue) -> Option<FaultView> {
    if v is Other {
        Some(
            (
                FaultKind::Type,
                "Multi mapping values must be PartitionMapping or (str, PartitionMapping) tuple"@,
            ),
        )
    } else {
        match nested_name(value_mapping(v)) {
            Some(name) => Some(
                (
                    FaultKind::Validation,
                    "Nested "@ + name + " mappings are not allowed inside Multi"@,
                ),
            ),
            None => None,
        }
    }
}

/// The name of a mapping that a Multi mapping cannot hold.
pub open spec fn nested_name(m: PartitionMapping) -> Option<Seq<char>> {
    match m {
        PartitionMapping::Multi { .. } => Some("Multi"@),
        PartitionMapping::ForKeys { .. } => Some("ForKeys"@),
        PartitionMapping::Subset => Some("Subset"@),
        _ => None,
    }
}

/// The name of a mapping that a MultiToSingle mapping cannot hold.
pub open spec fn inner_name(m: PartitionMapping) -> Option<Seq<char>> {
    match m {
        PartitionMapping::MultiToSingle { .. } => Some("MultiToSingle"@),
        _ => nested_name(m),
    }
}

/// The first fault among the values of a Multi mapping.
pub open spec fn values_fault(s: Seq<(String, MultiValue)>) -> Option<FaultView>
    decreases s.len(),
{
    if s.len() == 0 {
        None
    } else {
        match values_fault(s.drop_last()) {
            Some(f) => Some(f),
            None => value_fault(s.last().1),
        }
    }
}

/// The downstream dimension and the mapping of each upstream dimension.
pub open spec fn values_map(s: Seq<(String, MultiValue)>) -> Map<
    Seq<char>,
    (String, PartitionMapping),
>
    decreases s.len(),
{
    if s.len() == 0 {
        Map::empty()
    } else {
        values_map(s.drop_last()).insert(
            s.last().0@,
            (
                match s.last().1 {
                    MultiValue::Pair(d, _) => d,
                    _ => s.last().0,
                },
                value_mapping(s.last().1),
            ),
        )
    }
}

proof fn lemma_values_fault_prefix(s: Seq<(String, MultiValue)>, n: int)
    requires
        0 <= n <= s.len(),
        values_fault(s.take(n)) is Some,
    ensures
        values_fault(s) == values_fault(s.take(n)),
    decreases s.len(),
{
    if n < s.len() {
        assert(s.drop_last().take(n) =~= s.take(n));
        lemma_values_fault_prefix(s.drop_last(), n);
    } else {
        assert(s.take(n) =~= s);
    }
}

/// A list whose mappings are each well formed is so as a whole.
pub proof fn lemma_all_wf(s: Seq<(String, (String, PartitionMapping))>)
    requires
        forall|i: int| 0 <= i < s.len() ==> mapping_wf((#[trigger] s[i]).1.1),
    ensures
        mappings_wf(s),
    decreases s.len(),
{
    if s.len() > 0 {
        assert(mapping_wf(s[s.len() - 1].1.1));
        let w = s.drop_last();
        assert forall|i: int| 0 <= i < w.len() implies mapping_wf((#[trigger] w[i]).1.1) by {
            assert(mapping_wf(s[i].1.1));
        }
        lemma_all_wf(w);
    }
}

/// A map of well-formed mappings is a well-formed Multi mapping.
proof fn lemma_multi_wf(m: NameMap<(String, PartitionMapping)>)
    requires
        m.wf(),
        forall|k: Seq<char>| #[trigger] m@.dom().contains(k) ==> mapping_wf(m@[k].1),
    ensures
        mapping_wf(PartitionMapping::Multi { dimension_mappings: m }),
{
    let s = m.entries@;
    assert forall|i: int| 0 <= i < s.len() implies mapping_wf((#[trigger] s[i]).1.1) by {
        assert forall|j: int| i < j < s.len() implies (#[trigger] s[j]).0@ != s[i].0@ by {}
        lemma_pairs_value(s, i);
        assert(m@.dom().contains(s[i].0@));
    }
    lemma_all_wf(s);
}

/// The printed form of each entry of a static mapping.
pub open spec fn static_forms(s: Seq<(String, String)>) -> Seq<Seq<char>> {
    s.map_values(|p: (String, String)| quoted(p.0@) + ": "@ + quoted(p.1@))
}

/// The printed form of a mapping.
pub open spec fn mapping_repr(m: PartitionMapping) -> Seq<char>
    decreases m,
{
    match m {
        PartitionMapping::Identity => "PartitionMapping.identity()"@,
        PartitionMapping::AllPartitions => "PartitionMapping.all_partitions()"@,
        PartitionMapping::Static { mapping } => "PartitionMapping.static_({"@ + joined(
            static_forms(mapping.entries@),
            ", "@,
        ) + "})"@,
        PartitionMapping::TimeWindow { offset } => "PartitionMapping.time_window(offset="@
            + signed_decimal(offset as int) + ")"@,
        PartitionMapping::SpecificPartitions { partition_keys } =>
            "PartitionMapping.specific_partitions("@ + quoted_list(texts(partition_keys@)) + ")"@,
        PartitionMapping::Multi { dimension_mappings } => "PartitionMapping.multi({"@ + joined(
            entries_repr(dimension_mappings.entries@),
            ", "@,
        ) + "})"@,
        PartitionMapping::MultiToSingle { dimension_name, partition_mapping } =>
            "PartitionMapping.multi_to_single(dimension_name="@ + quoted(dimension_name@)
            + ", partition_mapping="@ + mapping_repr(*partition_mapping.0) + ")"@,
        PartitionMapping::ForKeys { selectors } => "PartitionMapping.for_keys(["@ + joined(
            selectors_form(selectors@),
            ", "@,
        ) + "])"@,
        PartitionMapping::Subset => "PartitionMapping.subset()"@,
    }
}

/// The printed form of each dimension mapping of a list.
pub open spec fn entries_repr(s: Seq<(String, (String, PartitionMapping))>) -> Seq<Seq<char>>
    decreases s,
{
    if s.len() == 0 {
        Seq::empty()
    } else {
        entries_repr(s.drop_last()).push(
            if s.last().0@ == s.last().1.0@ {
                quoted(s.last().0@) + ": "@ + mapping_repr(s.last().1.1)
            } else {
                quoted(s.last().0@) + ": ("@ + quoted(s.last().1.0@) + ", "@ + mapping_repr(
                    s.last().1.1,
                ) + ")"@
            },
        )
    }
}

fn static_texts(m: &NameMap<String>) -> (r: Vec<String>)
    ensures
        texts(r@) == static_forms(m.entries@),
{
    let ghost s = m.entries@;
    let mut out: Vec<String> = Vec::new();
    let mut i: usize = 0;
    while i < m.entries.len()
        invariant
            s == m.entries@,
            i <= s.len(),
            texts(out@) == static_forms(s.take(i as int)),
        decreases s.len() - i,
    {
        let e = say3(
            quoted_text(m.entries[i].0.as_str()).as_str(),
            ": ",
            quoted_text(m.entries[i].1.as_str()).as_str(),
        );
        let ghost prev = texts(out@);
        let ghost ev = e@;
        out.push(e);
        proof {
            assert(texts(out@) =~= prev.push(ev));
            assert(static_forms(s.take(i + 1)) =~= static_forms(s.take(i as int)).push(ev));
        }
        i += 1;
    }
    proof {
        assert(s.take(i as int) =~= s);
    }
    out
}

impl PartitionMapping {
    /// Each key maps to itself.
    pub fn identity() -> (r: Self)
        ensures
            r == PartitionMapping::Identity,
    {
        PartitionMapping::Identity
    }

    /// Each key depends on all upstream keys.
    pub fn all_partitions() -> (r: Self)
        ensures
            r == PartitionMapping::AllPartitions,
    {
        PartitionMapping::AllPartitions
    }

    /// Listed keys map as listed, other keys to themselves.
    pub fn static_(mapping: NameMap<String>) -> (r: Self)
        ensures
            r == (PartitionMapping::Static { mapping }),
    {
        PartitionMapping::Static { mapping }
    }

    /// Each key maps to the key `offset` windows away.
    pub fn time_window(offset: i64) -> (r: Self)
        ensures
            r == (PartitionMapping::TimeWindow { offset }),
    {
        PartitionMapping::TimeWindow { offset }
    }

    /// All downstream partitions map to a specific set of upstream partition keys.
    pub fn specific_partitions(partition_keys: Vec<String>) -> (r: Result<Self, Fault>)
        ensures
            match r {
                Ok(m) => partition_keys@.len() > 0 && (m matches PartitionMapping::SpecificPartitions {
                    partition_keys: k,
                } && texts(k@) == sorted_texts(texts(partition_keys@))),
                Err(e) => partition_keys@.len() == 0 && e@ == (
                    FaultKind::Validation,
                    "SpecificPartitions must have at least one partition key"@,
                ),
            },
    {
        if partition_keys.len() == 0 {
            return Err(
                Fault::new(
                    FaultKind::Validation,
                    "SpecificPartitions must have at least one partition key".to_owned(),
                ),
            );
        }
        Ok(PartitionMapping::SpecificPartitions { partition_keys: sort_texts(partition_keys) })
    }

    fn nested(&self) -> (r: Option<&'static str>)
        ensures
            match r {
                Some(s) => nested_name(*self) == Some(s@),
                None => nested_name(*self) is None,
            },
    {
        match self {
            PartitionMapping::Multi { .. } => Some("Multi"),
            PartitionMapping::ForKeys { .. } => Some("ForKeys"),
            PartitionMapping::Subset => Some("Subset"),
            _ => None,
        }
    }

    /// Each upstream dimension takes the mapped value of a downstream dimension.
    pub fn multi(dimension_mappings: Vec<(String, MultiValue)>) -> (r: Result<Self, Fault>)
        requires
            forall|i: int|
                0 <= i < dimension_mappings@.len() ==> value_mapping(
                    (#[trigger] dimension_mappings@[i]).1,
                ).wf(),
        ensures
            match r {
                Ok(m) => {
                    &&& values_fault(dimension_mappings@) is None
                    &&& dimension_mappings@.len() > 0
                    &&& m.wf()
                    &&& m matches PartitionMapping::Multi { dimension_mappings: d } && d@
                        == values_map(dimension_mappings@)
                },
                Err(e) => match values_fault(dimension_mappings@) {
                    Some(f) => e@ == f,
                    None => dimension_mappings@.len() == 0 && e@ == (
                        FaultKind::Validation,
                        "Multi mapping must have at least one dimension"@,
                    ),
                },
            },
    {
        let ghost s = dimension_mappings@;
        let mut rest = dimension_mappings;
        let mut map: NameMap<(String, PartitionMapping)> = NameMap::new();
        let ghost mut n: int = 0;
        proof {
            assert(s.take(0) =~= Seq::empty());
            assert(s.skip(0) =~= s);
        }
        while rest.len() > 0
            invariant
                s == dimension_mappings@,
                0 <= n <= s.len(),
                rest@ == s.skip(n),
                forall|i: int| 0 <= i < s.len() ==> value_mapping((#[trigger] s[i]).1).wf(),
                map.wf(),
                map@ == values_map(s.take(n)),
                n > 0 ==> map@.dom().len() > 0 && map@.dom().finite(),
                n == 0 ==> map@.dom().len() == 0,
                forall|k: Seq<char>| #[trigger] map@.dom().contains(k) ==> mapping_wf(map@[k].1),
                values_fault(s.take(n)) is None,
            decreases rest@.len(),
        {
            let (upstream_dim, value) = rest.remove(0);
            proof {
                assert(s.skip(n)[0] == s[n]);
                assert((upstream_dim, value) == s[n]);
                assert(rest@ =~= s.skip(n + 1));
                assert(s.take(n + 1).drop_last() =~= s.take(n));
                assert(s.take(n + 1).last() == s[n]);
                if values_fault(s.take(n + 1)) is Some {
                    lemma_values_fault_prefix(s, n + 1);
                }
            }
            let (downstream_dim, mapping) = match value {
                MultiValue::Mapping(m) => (upstream_dim.clone(), m),
                MultiValue::Pair(d, m) => (d, m),
                MultiValue::Other => {
                    return Err(
                        Fault::new(
                            FaultKind::Type,
                            "Multi mapping values must be PartitionMapping or (str, PartitionMapping) tuple".to_owned(),
                        ),
                    );
                },
            };
            if let Some(name) = mapping.nested() {
                return Err(
                    Fault::new(
                        FaultKind::Validation,
                        say3("Nested ", name, " mappings are not allowed inside Multi"),
                    ),
                );
            }
            let ghost before = map@;
            proof {
                assert(value_mapping(s[n].1).wf());
            }
            map.insert(upstream_dim, (downstream_dim, mapping));
            proof {
                lemma_pairs_len(map.entries@);
                assert(map@.dom().contains(s[n].0@));
                if map@.dom().len() == 0 {
                    map@.dom().lemma_len0_is_empty();
                }
                n = n + 1;
            }
        }
        proof {
            assert(n == s.len());
            assert(s.take(n) =~= s);
        }
        if map.len() == 0 {
            return Err(
                Fault::new(
                    FaultKind::Validation,
                    "Multi mapping must have at least one dimension".to_owned(),
                ),
            );
        }
        proof {
            lemma_multi_wf(map);
        }
        Ok(PartitionMapping::Multi { dimension_mappings: map })
    }

    /// One dimension of a several-dimension scheme maps to a single-dimension one,
    /// or vice versa. Defaults to Identity.
    pub fn multi_to_single(
        dimension_name: String,
        partition_mapping: Option<PartitionMapping>,
    ) -> (r: Result<Self, Fault>)
        requires
            partition_mapping matches Some(m) ==> m.wf(),
        ensures
            match r {
                Ok(m) => {
                    &&& m.wf()
                    &&& match partition_mapping {
                        Some(p) => inner_name(p) is None && m == (PartitionMapping::MultiToSingle {
                            dimension_name,
                            partition_mapping: BoxedMapping(Box::new(p)),
                        }),
                        None => m == (PartitionMapping::MultiToSingle {
                            dimension_name,
                            partition_mapping: BoxedMapping(Box::new(PartitionMapping::Identity)),
                        }),
                    }
                },
                Err(e) => partition_mapping is Some && (inner_name(
                    partition_mapping->0,
                ) matches Some(name) && e@ == (
                    FaultKind::Validation,
                    "MultiToSingle partition_mapping cannot be "@ + name,
                )),
            },
    {
        if let Some(m) = &partition_mapping {
            let rejected: Option<&'static str> = match m {
                PartitionMapping::MultiToSingle { .. } => Some("MultiToSingle"),
                _ => m.nested(),
            };
            if let Some(name) = rejected {
                let mut s = "MultiToSingle partition_mapping cannot be ".to_owned();
                s.append(name);
                return Err(Fault::new(FaultKind::Validation, s));
            }
        }
        let inner = match partition_mapping {
            Some(m) => m,
            None => PartitionMapping::Identity,
        };
        proof {
            assert(mapping_wf(inner));
        }
        Ok(
            PartitionMapping::MultiToSingle {
                dimension_name,
                partition_mapping: BoxedMapping(Box::new(inner)),
            },
        )
    }

    /// The upstream is loaded only for the downstream keys that a selector matches.
    pub fn for_keys(selectors: Vec<PartitionKeySelector>) -> (r: Result<Self, Fault>)
        ensures
            match r {
                Ok(m) => selectors@.len() > 0 && m == (PartitionMapping::ForKeys { selectors }),
                Err(e) => selectors@.len() == 0 && e@ == (
                    FaultKind::Validation,
                    "for_keys must have at least one key or range"@,
                ),
            },
    {
        if selectors.len() == 0 {
            return Err(
                Fault::new(
                    FaultKind::Validation,
                    "for_keys must have at least one key or range".to_owned(),
                ),
            );
        }
        Ok(PartitionMapping::ForKeys { selectors })
    }

    /// The upstream has a subset of the downstream's keys.
    pub fn subset() -> (r: Self)
        ensures
            r == PartitionMapping::Subset,
    {
        PartitionMapping::Subset
    }

    /// The printed form of the mapping.
    pub fn repr(&self) -> (r: String)
        requires
            self.wf(),
        ensures
            r@ == mapping_repr(*self),
        decreases self,
    {
        match self {
            PartitionMapping::Identity => "PartitionMapping.identity()".to_owned(),
            PartitionMapping::AllPartitions => "PartitionMapping.all_partitions()".to_owned(),
            PartitionMapping::Static { mapping } => say3(
                "PartitionMapping.static_({",
                join_texts(&static_texts(mapping), ", ").as_str(),
                "})",
            ),
            PartitionMapping::TimeWindow { offset } => say3(
                "PartitionMapping.time_window(offset=",
                signed_decimal_text(*offset).as_str(),
                ")",
            ),
            PartitionMapping::SpecificPartitions { partition_keys } => say3(
                "PartitionMapping.specific_partitions(",
                quoted_list_text(partition_keys).as_str(),
                ")",
            ),
            PartitionMapping::Multi { dimension_mappings } => {
                let ghost s = dimension_mappings.entries@;
                let mut out: Vec<String> = Vec::new();
                let mut i: usize = 0;
                proof {
                    assert(s.take(0) =~= Seq::empty());
                    assert(texts(out@) =~= Seq::empty());
                }
                while i < dimension_mappings.entries.len()
                    invariant
                        self.wf(),
                        self == (PartitionMapping::Multi {
                            dimension_mappings: *dimension_mappings,
                        }),
                        s == dimension_mappings.entries@,
                        i <= s.len(),
                        texts(out@) == entries_repr(s.take(i as int)),
                    decreases s.len() - i,
                {
                    proof {
                        lemma_mappings_wf(s, i as int);
                        lemma_mapping_decreases(*self, i as int);
                        assert(s.take(i + 1).drop_last() =~= s.take(i as int));
                        assert(s.take(i + 1).last() == s[i as int]);
                    }
                    let up = dimension_mappings.entries[i].0.as_str();
                    let down = dimension_mappings.entries[i].1.0.as_str();
                    let inner = dimension_mappings.entries[i].1.1.repr();
                    let e = if same_text(up, down) {
                        say3(quoted_text(up).as_str(), ": ", inner.as_str())
                    } else {
                        let mut t = say5(
                            quoted_text(up).as_str(),
                            ": (",
                            quoted_text(down).as_str(),
                            ", ",
                            inner.as_str(),
                        );
                        t.append(")");
                        t
                    };
                    let ghost prev = texts(out@);
                    let ghost ev = e@;
                    out.push(e);
                    proof {
                        assert(texts(out@) =~= prev.push(ev));
                    }
                    i += 1;
                }
                proof {
                    assert(s.take(i as int) =~= s);
                }
                say3("PartitionMapping.multi({", join_texts(&out, ", ").as_str(), "})")
            },
            PartitionMapping::MultiToSingle { dimension_name, partition_mapping } => say5(
                "PartitionMapping.multi_to_single(dimension_name=",
                quoted_text(dimension_name.as_str()).as_str(),
                ", partition_mapping=",
                partition_mapping.0.repr().as_str(),
                ")",
            ),
            PartitionMapping::ForKeys { selectors } => say3(
                "PartitionMapping.for_keys([",
                join_texts(&selector_texts(selectors), ", ").as_str(),
                "])",
            ),
            PartitionMapping::Subset => "PartitionMapping.subset()".to_owned(),
        }
    }
}

/// The mappings of an asset's dependencies, by the name of the dependency.
#[derive(Debug)]
pub struct PartitionMappingDict(pub NameMap<PartitionMapping>);

} // verus!
