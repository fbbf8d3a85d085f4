//! How keys, schemes and mappings travel to another process: each as the name of its
//! variant and the data of that, from which it is made anew.
use vstd::prelude::*;
use vstd::string::*;
use crate::errors::{Fault, FaultKind, FaultView};
use crate::names::NameMap;
use crate::partitions::definition::{dims_of, DefView, PartitionsDefinition};
use crate::partitions::grid::TimeGrid;
use crate::partitions::key::{dims_view, keys_view, KeyView, PyPartitionKey};
use crate::partitions::key_set::{
    first_occurrences, lemma_first_occurrences_of_distinct, OrderedKeySet,
};
use crate::partitions::mapping::{
    lemma_mappings_wf, mappings_wf, PartitionKeySelector, PartitionMapping,
};
use crate::partitions::mapping_make::{
    nested_name, value_mapping, values_fault, values_map, MultiValue,
};
use crate::partitions::mapping_same::{
    dims_mapped, lemma_dims_mapped, mapping_view, selectors_view, texts_map, MappingView,
    SelectorView,
};
use crate::text::{in_order, lemma_sorted_stays, same_text, sorted_texts, texts};

verus! {

/// The data of a key.
#[derive(Debug)]
pub enum KeyData {
    Texts(Vec<String>),
    Dims(NameMap<Vec<String>>),
    Members(Vec<PyPartitionKey>),
}

/// The key that data is of.
pub open spec fn key_of_data(d: KeyData) -> KeyView {
    match d {
        KeyData::Texts(v) => KeyView::Single(texts(v@)),
        KeyData::Dims(m) => KeyView::Multi(dims_view(m@)),
        KeyData::Members(v) => KeyView::Batch(keys_view(v@)),
    }
}

/// The name of the variant of a key.
pub open spec fn key_variant(k: KeyView) -> Seq<char> {
    match k {
        KeyView::Single(_) => "Single"@,
        KeyView::Multi(_) => "Multi"@,
        KeyView::Batch(_) => "Set"@,
    }
}

/// The message of a name that no variant has.
pub open spec fn unknown_variant(of: Seq<char>, variant: Seq<char>) -> FaultView {
    (FaultKind::Value, "Unknown "@ + of + " variant: "@ + variant)
}

fn unknown(of: &str, variant: &str) -> (r: Fault)
    ensures
        r@ == unknown_variant(of@, variant@),
{
    let mut s = crate::text::say3("Unknown ", of, " variant: ");
    s.append(variant);
    Fault::new(FaultKind::Value, s)
}

/// Whether a name is that of a variant of keys.
pub open spec fn is_key_variant(variant: Seq<char>) -> bool {
    variant == "Single"@ || variant == "Multi"@ || variant == "Set"@
}

/// The key of a variant with given data, or why there is none.
pub open spec fn key_anew(variant: Seq<char>, d: KeyView) -> Result<KeyView, FaultView> {
    if is_key_variant(variant) {
        Ok(d)
    } else {
        Err(unknown_variant("PartitionKey"@, variant))
    }
}

impl PyPartitionKey {
    /// The name of the variant of the key, and its data.
    pub fn reduce(self) -> (r: (&'static str, KeyData))
        ensures
            r.0@ == key_variant(self@),
            key_of_data(r.1) == self@,
    {
        match self {
            PyPartitionKey::Single { key } => ("Single", KeyData::Texts(key)),
            PyPartitionKey::Multi { keys } => ("Multi", KeyData::Dims(keys)),
            PyPartitionKey::Batch { members } => ("Set", KeyData::Members(members)),
        }
    }
}

/// The key of a variant with given data.
pub fn reconstruct_partition_key(variant: &str, data: KeyData) -> (r: Result<PyPartitionKey, Fault>)
    requires
        is_key_variant(variant@) ==> variant@ == key_variant(key_of_data(data)),
    ensures
        match r {
            Ok(k) => key_anew(variant@, key_of_data(data)) == Ok::<KeyView, FaultView>(k@),
            Err(e) => key_anew(variant@, key_of_data(data)) == Err::<KeyView, FaultView>(e@),
        },
{
    if !same_text(variant, "Single") && !same_text(variant, "Multi") && !same_text(
        variant,
        "Set",
    ) {
        return Err(unknown("PartitionKey", variant));
    }
    Ok(
        match data {
            KeyData::Texts(key) => PyPartitionKey::Single { key },
            KeyData::Dims(keys) => PyPartitionKey::Multi { keys },
            KeyData::Members(members) => PyPartitionKey::Batch { members },
        },
    )
}

/// The data of a scheme.
#[derive(Debug)]
pub enum SchemeData {
    Keys(Vec<String>),
    Grid(TimeGrid),
    Dims(Vec<(String, PartitionsDefinition)>),
    Name(String),
}

/// The scheme that data is of, but that static keys may repeat.
pub open spec fn scheme_of_data(d: SchemeData) -> DefView {
    match d {
        SchemeData::Keys(v) => DefView::Static(texts(v@)),
        SchemeData::Grid(g) => DefView::TimeWindow(g@),
        SchemeData::Dims(v) => DefView::Multi(dims_of(v@)),
        SchemeData::Name(n) => DefView::Dynamic(n@),
    }
}

/// The name of the variant of a scheme.
pub open spec fn scheme_variant(d: DefView) -> Seq<char> {
    match d {
        DefView::Static(_) => "Static"@,
        DefView::TimeWindow(_) => "TimeWindow"@,
        DefView::Multi(_) => "Multi"@,
        DefView::Dynamic(_) => "Dynamic"@,
    }
}

/// Whether a name is that of a variant of schemes.
pub open spec fn is_scheme_variant(variant: Seq<char>) -> bool {
    variant == "Static"@ || variant == "TimeWindow"@ || variant == "Multi"@ || variant
        == "Dynamic"@
}

/// The scheme of a variant with given data, or why there is none. Static keys count
/// once.
pub open spec fn scheme_anew(variant: Seq<char>, d: DefView) -> Result<DefView, FaultView> {
    if !is_scheme_variant(variant) {
        Err(unknown_variant("PartitionsDefinition"@, variant))
    } else {
        match d {
            DefView::Static(v) => Ok(DefView::Static(first_occurrences(v))),
            _ => Ok(d),
        }
    }
}

impl PartitionsDefinition {
    /// The name of the variant of the scheme, and its data.
    pub fn reduce(self) -> (r: (&'static str, SchemeData))
        ensures
            r.0@ == scheme_variant(self@),
            scheme_of_data(r.1) == self@,
    {
        match self {
            PartitionsDefinition::Static { keys } => ("Static", SchemeData::Keys(keys.iter())),
            PartitionsDefinition::TimeWindow { grid } => ("TimeWindow", SchemeData::Grid(grid)),
            PartitionsDefinition::Multi { dimensions } => ("Multi", SchemeData::Dims(dimensions)),
            PartitionsDefinition::Dynamic { name } => ("Dynamic", SchemeData::Name(name)),
        }
    }
}

/// The scheme of a variant with given data.
pub fn reconstruct_partitions_definition(variant: &str, data: SchemeData) -> (r: Result<
    PartitionsDefinition,
    Fault,
>)
    requires
        is_scheme_variant(variant@) ==> variant@ == scheme_variant(scheme_of_data(data)),
    ensures
        match r {
            Ok(d) => scheme_anew(variant@, scheme_of_data(data)) == Ok::<DefView, FaultView>(d@),
            Err(e) => scheme_anew(variant@, scheme_of_data(data)) == Err::<DefView, FaultView>(
                e@,
            ),
        },
{
    if !same_text(variant, "Static") && !same_text(variant, "TimeWindow") && !same_text(
        variant,
        "Multi",
    ) && !same_text(variant, "Dynamic") {
        return Err(unknown("PartitionsDefinition", variant));
    }
    Ok(
        match data {
            SchemeData::Keys(v) => PartitionsDefinition::Static { keys: OrderedKeySet::new(v) },
            SchemeData::Grid(grid) => PartitionsDefinition::TimeWindow { grid },
            SchemeData::Dims(dimensions) => PartitionsDefinition::Multi { dimensions },
            SchemeData::Name(name) => PartitionsDefinition::Dynamic { name },
        },
    )
}

/// A key arrives as it was sent.
pub proof fn lemma_key_arrives(k: PyPartitionKey)
    ensures
        key_anew(key_variant(k@), k@) == Ok::<KeyView, FaultView>(k@),
{
}

/// A scheme arrives as it was sent.
pub proof fn lemma_scheme_arrives(d: PartitionsDefinition)
    requires
        d.wf(),
    ensures
        scheme_anew(scheme_variant(d@), d@) == Ok::<DefView, FaultView>(d@),
{
    if let PartitionsDefinition::Static { keys } = d {
        lemma_first_occurrences_of_distinct(keys@);
    }
}

/// The data of a mapping.
#[derive(Debug)]
pub enum MappingData {
    Nothing,
    Texts(NameMap<String>),
    Offset(i64),
    Dims(Vec<(String, MultiValue)>),
    Named(String, PartitionMapping),
    Keys(Vec<String>),
    Selectors(Vec<PartitionKeySelector>),
}

/// What the data of a mapping says. A dimension that keeps its name has no other.
pub enum DataView {
    Nothing,
    Texts(Map<Seq<char>, Seq<char>>),
    Offset(i64),
    Dims(Seq<(Seq<char>, Option<Seq<char>>, MappingView)>),
    Named(Seq<char>, MappingView),
    Keys(Seq<Seq<char>>),
    Selectors(Seq<SelectorView>),
}

/// What a value of a dimension says.
pub open spec fn value_view(p: (String, MultiValue)) -> (Seq<char>, Option<Seq<char>>, MappingView) {
    (
        p.0@,
        match p.1 {
            MultiValue::Pair(d, _) => Some(d@),
            _ => None,
        },
        mapping_view(value_mapping(p.1)),
    )
}

/// What the values of dimensions say.
pub open spec fn values_view(s: Seq<(String, MultiValue)>) -> Seq<
    (Seq<char>, Option<Seq<char>>, MappingView),
> {
    s.map_values(|p: (String, MultiValue)| value_view(p))
}

/// What data says.
pub open spec fn data_view(d: MappingData) -> DataView {
    match d {
        MappingData::Nothing => DataView::Nothing,
        MappingData::Texts(m) => DataView::Texts(texts_map(m@)),
        MappingData::Offset(n) => DataView::Offset(n),
        MappingData::Dims(v) => DataView::Dims(values_view(v@)),
        MappingData::Named(n, m) => DataView::Named(n@, mapping_view(m)),
        MappingData::Keys(v) => DataView::Keys(texts(v@)),
        MappingData::Selectors(v) => DataView::Selectors(selectors_view(v@)),
    }
}

/// The data is well formed, and its dimensions have mappings.
pub open spec fn data_wf(d: MappingData) -> bool {
    match d {
        MappingData::Dims(v) => forall|i: int|
            0 <= i < v@.len() ==> value_mapping((#[trigger] v@[i]).1).wf() && !(v@[i].1 is Other),
        MappingData::Named(_, m) => m.wf(),
        _ => true,
    }
}

/// What the data of the dimensions of a mapping says.
pub open spec fn dims_data(s: Seq<(String, (String, PartitionMapping))>) -> Seq<
    (Seq<char>, Option<Seq<char>>, MappingView),
> {
    s.map_values(
        |p: (String, (String, PartitionMapping))|
            (
                p.0@,
                if p.0@ == p.1.0@ {
                    None
                } else {
                    Some(p.1.0@)
                },
                mapping_view(p.1.1),
            ),
    )
}

/// What the data of a mapping says.
pub open spec fn data_of(m: PartitionMapping) -> DataView {
    match m {
        PartitionMapping::Static { mapping } => DataView::Texts(texts_map(mapping@)),
        PartitionMapping::TimeWindow { offset } => DataView::Offset(offset),
        PartitionMapping::Multi { dimension_mappings } => DataView::Dims(
            dims_data(dimension_mappings.entries@),
        ),
        PartitionMapping::MultiToSingle { dimension_name, partition_mapping } => DataView::Named(
            dimension_name@,
            mapping_view(*partition_mapping.0),
        ),
        PartitionMapping::SpecificPartitions { partition_keys } => DataView::Keys(
            texts(partition_keys@),
        ),
        PartitionMapping::ForKeys { selectors } => DataView::Selectors(selectors_view(selectors@)),
        _ => DataView::Nothing,
    }
}

/// The name of the variant of a mapping.
pub open spec fn mapping_variant(m: MappingView) -> Seq<char> {
    match m {
        MappingView::Identity => "Identity"@,
        MappingView::AllPartitions => "AllPartitions"@,
        MappingView::Static(_) => "Static"@,
        MappingView::TimeWindow(_) => "TimeWindow"@,
        MappingView::Multi(_) => "Multi"@,
        MappingView::MultiToSingle(_, _) => "MultiToSingle"@,
        MappingView::SpecificPartitions(_) => "SpecificPartitions"@,
        MappingView::ForKeys(_) => "ForKeys"@,
        MappingView::Subset => "Subset"@,
    }
}

/// The name of a mapping that cannot stand in a dimension of another.
pub open spec fn nested_variant(m: MappingView) -> Option<Seq<char>> {
    match m {
        MappingView::Multi(_) => Some("Multi"@),
        MappingView::ForKeys(_) => Some("ForKeys"@),
        MappingView::Subset => Some("Subset"@),
        _ => None,
    }
}

/// The first dimension whose mapping cannot stand there.
pub open spec fn dims_fault(s: Seq<(Seq<char>, Option<Seq<char>>, MappingView)>) -> Option<FaultView>
    decreases s.len(),
{
    if s.len() == 0 {
        None
    } else {
        match dims_fault(s.drop_last()) {
            Some(f) => Some(f),
            None => match nested_variant(s.last().2) {
                Some(name) => Some(
                    (
                        FaultKind::Validation,
                        "Nested "@ + name + " mappings are not allowed inside Multi"@,
                    ),
                ),
                None => None,
            },
        }
    }
}

/// The mapping of each dimension.
pub open spec fn dims_anew(s: Seq<(Seq<char>, Option<Seq<char>>, MappingView)>) -> Map<
    Seq<char>,
    (Seq<char>, MappingView),
>
    decreases s.len(),
{
    if s.len() == 0 {
        Map::empty()
    } else {
        dims_anew(s.drop_last()).insert(
            s.last().0,
            (
                match s.last().1 {
                    Some(d) => d,
                    None => s.last().0,
                },
                s.last().2,
            ),
        )
    }
}

/// Whether data is of the shape of a variant.
pub open spec fn data_fits(variant: Seq<char>, d: DataView) -> bool {
    &&& variant == "Static"@ ==> d is Texts
    &&& variant == "TimeWindow"@ ==> d is Offset
    &&& variant == "Multi"@ ==> d is Dims
    &&& variant == "MultiToSingle"@ ==> d is Named
    &&& variant == "SpecificPartitions"@ ==> d is Keys
    &&& variant == "ForKeys"@ ==> d is Selectors
}

/// The mapping of a variant with given data, or why there is none.
pub open spec fn mapping_anew(variant: Seq<char>, d: DataView) -> Result<MappingView, FaultView> {
    if variant == "Identity"@ {
        Ok(MappingView::Identity)
    } else if variant == "AllPartitions"@ {
        Ok(MappingView::AllPartitions)
    } else if variant == "Static"@ {
        Ok(MappingView::Static(d->Texts_0))
    } else if variant == "TimeWindow"@ {
        Ok(MappingView::TimeWindow(d->Offset_0))
    } else if variant == "Multi"@ {
        match dims_fault(d->Dims_0) {
            Some(f) => Err(f),
            None => if d->Dims_0.len() == 0 {
                Err((FaultKind::Validation, "Multi mapping must have at least one dimension"@))
            } else {
                Ok(MappingView::Multi(dims_anew(d->Dims_0)))
            },
        }
    } else if variant == "MultiToSingle"@ {
        match inner_variant(d->Named_1) {
            Some(name) => Err(
                (FaultKind::Validation, "MultiToSingle partition_mapping cannot be "@ + name),
            ),
            None => Ok(MappingView::MultiToSingle(d->Named_0, Box::new(d->Named_1))),
        }
    } else if variant == "SpecificPartitions"@ {
        if d->Keys_0.len() == 0 {
            Err(
                (
                    FaultKind::Validation,
                    "SpecificPartitions must have at least one partition key"@,
                ),
            )
        } else {
            Ok(MappingView::SpecificPartitions(sorted_texts(d->Keys_0)))
        }
    } else if variant == "ForKeys"@ {
        if d->Selectors_0.len() == 0 {
            Err((FaultKind::Validation, "for_keys must have at least one key or range"@))
        } else {
            Ok(MappingView::ForKeys(d->Selectors_0))
        }
    } else if variant == "Subset"@ {
        Ok(MappingView::Subset)
    } else {
        Err(unknown_variant("PartitionMapping"@, variant))
    }
}

/// The name of a mapping that cannot stand in one of a single dimension.
pub open spec fn inner_variant(m: MappingView) -> Option<Seq<char>> {
    match m {
        MappingView::MultiToSingle(_, _) => Some("MultiToSingle"@),
        _ => nested_variant(m),
    }
}

proof fn lemma_values(s: Seq<(String, MultiValue)>)
    requires
        forall|i: int| 0 <= i < s.len() ==> !((#[trigger] s[i]).1 is Other),
    ensures
        dims_fault(values_view(s)) == values_fault(s),
        values_map(s).dom() == dims_anew(values_view(s)).dom(),
        forall|n: Seq<char>| #[trigger]
            values_map(s).dom().contains(n) ==> dims_anew(values_view(s))[n] == (
                values_map(s)[n].0@,
                mapping_view(values_map(s)[n].1),
            ),
    decreases s.len(),
{
    if s.len() > 0 {
        let w = s.drop_last();
        assert forall|i: int| 0 <= i < w.len() implies !((#[trigger] w[i]).1 is Other) by {
            assert(!(s[i].1 is Other));
        }
        lemma_values(w);
        assert(values_view(s).drop_last() =~= values_view(w));
        assert(values_view(s).last() == value_view(s.last()));
        assert(!(s[s.len() - 1].1 is Other));
        assert(nested_variant(mapping_view(value_mapping(s.last().1))) == nested_name(
            value_mapping(s.last().1),
        ));
    }
    assert(values_map(s).dom() =~= dims_anew(values_view(s)).dom());
}

proof fn lemma_multi_anew(
    s: Seq<(String, MultiValue)>,
    d: NameMap<(String, PartitionMapping)>,
)
    requires
        forall|i: int| 0 <= i < s.len() ==> !((#[trigger] s[i]).1 is Other),
        d@ == values_map(s),
    ensures
        dims_mapped(d.entries@) == dims_anew(values_view(s)),
{
    lemma_values(s);
    lemma_dims_mapped(d.entries@);
    assert(dims_mapped(d.entries@) =~= dims_anew(values_view(s)));
}

fn values_of(dims: NameMap<(String, PartitionMapping)>) -> (r: Vec<(String, MultiValue)>)
    requires
        mappings_wf(dims.entries@),
    ensures
        values_view(r@) == dims_data(dims.entries@),
        forall|i: int|
            0 <= i < r@.len() ==> value_mapping((#[trigger] r@[i]).1).wf() && !(r@[i].1 is Other),
{
    let ghost src = dims.entries@;
    let mut rest = dims.entries;
    let mut out: Vec<(String, MultiValue)> = Vec::new();
    let ghost mut n: int = 0;
    proof {
        assert(src.skip(0) =~= src);
        assert(values_view(out@) =~= dims_data(src).take(0));
    }
    while rest.len() > 0
        invariant
            0 <= n <= src.len(),
            mappings_wf(src),
            rest@ == src.skip(n),
            values_view(out@) == dims_data(src).take(n),
            forall|i: int|
                0 <= i < out@.len() ==> value_mapping((#[trigger] out@[i]).1).wf() && !(
                out@[i].1 is Other),
        decreases rest@.len(),
    {
        let (up, (down, mapping)) = rest.remove(0);
        proof {
            assert(src.skip(n)[0] == src[n]);
            assert((up, (down, mapping)) == src[n]);
            assert(rest@ =~= src.skip(n + 1));
            lemma_mappings_wf(src, n);
        }
        let value = if same_text(up.as_str(), down.as_str()) {
            MultiValue::Mapping(mapping)
        } else {
            MultiValue::Pair(down, mapping)
        };
        let ghost prev = values_view(out@);
        let ghost e = (up, value);
        out.push((up, value));
        proof {
            assert(values_view(out@) =~= prev.push(value_view(e)));
            assert(value_view(e) == dims_data(src)[n]);
            assert(dims_data(src).take(n + 1) =~= dims_data(src).take(n).push(dims_data(src)[n]));
            n = n + 1;
        }
    }
    proof {
        assert(dims_data(src).take(n) =~= dims_data(src));
    }
    out
}

impl PartitionMapping {
    /// The name of the variant of the mapping, and its data.
    pub fn reduce(self) -> (r: (&'static str, MappingData))
        requires
            self.wf(),
        ensures
            r.0@ == mapping_variant(self@),
            data_view(r.1) == data_of(self),
            data_wf(r.1),
    {
        let variant = self.variant_name();
        let data = match self {
            PartitionMapping::Identity => MappingData::Nothing,
            PartitionMapping::AllPartitions => MappingData::Nothing,
            PartitionMapping::Static { mapping } => MappingData::Texts(mapping),
            PartitionMapping::TimeWindow { offset } => MappingData::Offset(offset),
            PartitionMapping::Multi { dimension_mappings } => MappingData::Dims(
                values_of(dimension_mappings),
            ),
            PartitionMapping::MultiToSingle {
                dimension_name,
                partition_mapping,
            } => MappingData::Named(dimension_name, *partition_mapping.0),
            PartitionMapping::SpecificPartitions { partition_keys } => MappingData::Keys(
                partition_keys,
            ),
            PartitionMapping::ForKeys { selectors } => MappingData::Selectors(selectors),
            PartitionMapping::Subset => MappingData::Nothing,
        };
        (variant, data)
    }
}

/// The mapping of a variant with given data.
pub fn reconstruct_partition_mapping(variant: &str, data: MappingData) -> (r: Result<
    PartitionMapping,
    Fault,
>)
    requires
        data_wf(data),
        data_fits(variant@, data_view(data)),
    ensures
        match r {
            Ok(m) => mapping_anew(variant@, data_view(data)) == Ok::<MappingView, FaultView>(m@),
            Err(e) => mapping_anew(variant@, data_view(data)) == Err::<MappingView, FaultView>(e@),
        },
{
    if same_text(variant, "Identity") {
        return Ok(PartitionMapping::identity());
    }
    if same_text(variant, "AllPartitions") {
        return Ok(PartitionMapping::all_partitions());
    }
    if same_text(variant, "Subset") {
        proof {
            lemma_variants_apart();
        }
        return Ok(PartitionMapping::subset());
    }
    if !same_text(variant, "Static") && !same_text(variant, "TimeWindow") && !same_text(
        variant,
        "Multi",
    ) && !same_text(variant, "MultiToSingle") && !same_text(variant, "SpecificPartitions")
        && !same_text(variant, "ForKeys") {
        return Err(unknown("PartitionMapping", variant));
    }
    proof {
        lemma_variants_apart();
    }
    match data {
        MappingData::Nothing => Err(unknown("PartitionMapping", variant)),
        MappingData::Texts(mapping) => Ok(PartitionMapping::static_(mapping)),
        MappingData::Offset(offset) => Ok(PartitionMapping::time_window(offset)),
        MappingData::Dims(dims) => {
            let ghost s = dims@;
            proof {
                assert forall|i: int| 0 <= i < s.len() implies !((#[trigger] s[i]).1 is Other) by {
                    assert(value_mapping(s[i].1).wf() && !(s[i].1 is Other));
                }
                lemma_values(s);
            }
            let r = PartitionMapping::multi(dims);
            proof {
                if r is Ok {
                    lemma_multi_anew(s, r->Ok_0->dimension_mappings);
                }
            }
            r
        },
        MappingData::Named(name, inner) => PartitionMapping::multi_to_single(name, Some(inner)),
        MappingData::Keys(keys) => PartitionMapping::specific_partitions(keys),
        MappingData::Selectors(selectors) => PartitionMapping::for_keys(selectors),
    }
}

/// No two variants of mappings with data share their name.
pub proof fn lemma_variants_apart()
    ensures
        "Static"@ != "TimeWindow"@,
        "Static"@ != "Multi"@,
        "Static"@ != "MultiToSingle"@,
        "Static"@ != "SpecificPartitions"@,
        "Static"@ != "ForKeys"@,
        "TimeWindow"@ != "Multi"@,
        "TimeWindow"@ != "MultiToSingle"@,
        "TimeWindow"@ != "SpecificPartitions"@,
        "TimeWindow"@ != "ForKeys"@,
        "Multi"@ != "MultiToSingle"@,
        "Multi"@ != "SpecificPartitions"@,
        "Multi"@ != "ForKeys"@,
        "MultiToSingle"@ != "SpecificPartitions"@,
        "MultiToSingle"@ != "ForKeys"@,
        "SpecificPartitions"@ != "ForKeys"@,
        "Subset"@ != "Static"@,
        "Subset"@ != "TimeWindow"@,
        "Subset"@ != "Multi"@,
        "Subset"@ != "MultiToSingle"@,
        "Subset"@ != "SpecificPartitions"@,
        "Subset"@ != "ForKeys"@,
        "Subset"@ != "Identity"@,
        "Subset"@ != "AllPartitions"@,
        "Identity"@ != "AllPartitions"@,
        "Identity"@ != "Static"@,
        "Identity"@ != "TimeWindow"@,
        "Identity"@ != "Multi"@,
        "Identity"@ != "MultiToSingle"@,
        "Identity"@ != "SpecificPartitions"@,
        "Identity"@ != "ForKeys"@,
        "AllPartitions"@ != "Static"@,
        "AllPartitions"@ != "TimeWindow"@,
        "AllPartitions"@ != "Multi"@,
        "AllPartitions"@ != "MultiToSingle"@,
        "AllPartitions"@ != "SpecificPartitions"@,
        "AllPartitions"@ != "ForKeys"@,
{
    reveal_strlit("Identity");
    reveal_strlit("AllPartitions");
    reveal_strlit("Static");
    reveal_strlit("TimeWindow");
    reveal_strlit("Multi");
    reveal_strlit("MultiToSingle");
    reveal_strlit("SpecificPartitions");
    reveal_strlit("ForKeys");
    reveal_strlit("Subset");
    assert("Identity"@.len() == 8);
    assert("AllPartitions"@.len() == 13);
    assert("Static"@.len() == 6);
    assert("TimeWindow"@.len() == 10);
    assert("Multi"@.len() == 5);
    assert("MultiToSingle"@.len() == 13);
    assert("SpecificPartitions"@.len() == 18);
    assert("ForKeys"@.len() == 7);
    assert("Subset"@.len() == 6);
    assert("Subset"@[1] == 'u');
    assert("Static"@[1] == 't');
    assert("AllPartitions"@[0] == 'A');
    assert("MultiToSingle"@[0] == 'M');
}

/// Whether a mapping is one that the constructors make.
pub open spec fn constructed(m: PartitionMapping) -> bool {
    match m {
        PartitionMapping::Multi { dimension_mappings } => {
            &&& dimension_mappings.entries@.len() > 0
            &&& forall|i: int|
                0 <= i < dimension_mappings.entries@.len() ==> nested_name(
                    (#[trigger] dimension_mappings.entries@[i]).1.1,
                ) is None
        },
        PartitionMapping::MultiToSingle { partition_mapping, .. } =>
            crate::partitions::mapping_make::inner_name(*partition_mapping.0) is None,
        PartitionMapping::SpecificPartitions { partition_keys } => partition_keys@.len() > 0
            && in_order(texts(partition_keys@)),
        PartitionMapping::ForKeys { selectors } => selectors@.len() > 0,
        _ => true,
    }
}

proof fn lemma_dims_arrive(s: Seq<(String, (String, PartitionMapping))>)
    requires
        forall|i: int| 0 <= i < s.len() ==> nested_name((#[trigger] s[i]).1.1) is None,
    ensures
        dims_fault(dims_data(s)) is None,
        dims_anew(dims_data(s)) == dims_mapped(s),
    decreases s.len(),
{
    if s.len() > 0 {
        let w = s.drop_last();
        assert forall|i: int| 0 <= i < w.len() implies nested_name((#[trigger] w[i]).1.1) is None by {
            assert(nested_name(s[i].1.1) is None);
        }
        lemma_dims_arrive(w);
        assert(dims_data(s).drop_last() =~= dims_data(w));
        assert(nested_name(s[s.len() - 1].1.1) is None);
        assert(nested_variant(mapping_view(s.last().1.1)) == nested_name(s.last().1.1));
    }
    assert(dims_anew(dims_data(s)) =~= dims_mapped(s));
}

/// A mapping that the constructors have made arrives as it was sent.
pub proof fn lemma_mapping_arrives(m: PartitionMapping)
    requires
        m.wf(),
        constructed(m),
    ensures
        data_fits(mapping_variant(m@), data_of(m)),
        mapping_anew(mapping_variant(m@), data_of(m)) == Ok::<MappingView, FaultView>(m@),
{
    lemma_variants_apart();
    match m {
        PartitionMapping::Multi { dimension_mappings } => {
            lemma_dims_arrive(dimension_mappings.entries@);
        },
        PartitionMapping::MultiToSingle { partition_mapping, .. } => {
            let inner = *partition_mapping.0;
            assert(inner_variant(mapping_view(inner))
                == crate::partitions::mapping_make::inner_name(inner));
        },
        PartitionMapping::SpecificPartitions { partition_keys } => {
            lemma_sorted_stays(texts(partition_keys@));
        },
        _ => {},
    }
}

} // verus!
