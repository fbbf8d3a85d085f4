//! How partition keys map between connected assets.
use vstd::prelude::*;
use vstd::string::*;
use crate::errors::fault_text;
use crate::names::NameMap;
use crate::partitions::definition::{
    def_view, def_wf, dimension_of, dims_of, find_dim, lemma_dims_of, single_keys, DefView,
    PartitionsDefinition,
};
use crate::partitions::facts::{shifted_key, KeyFacts};
use crate::partitions::key::{dims_view, KeyView, PyPartitionKey};
use crate::partitions::key_range::{opt_def, range_has, PyPartitionKeyRange};
use crate::partitions::rules::key_valid;
use crate::text::{
    copy_texts, quoted_list, quoted_list_text, same_text, say4, say7, set_in_order, signed_decimal,
    signed_decimal_text, texts,
};

verus! {

/// Selector for matching partition keys: either an exact key or a range.
#[derive(Debug)]
pub enum PartitionKeySelector {
    Key(PyPartitionKey),
    Range(PyPartitionKeyRange),
}

/// Whether a selector matches a key.
pub open spec fn selector_matches(
    s: PartitionKeySelector,
    k: KeyView,
    def: Option<DefView>,
    facts: KeyFacts,
) -> bool {
    match s {
        PartitionKeySelector::Key(key) => key@ == k,
        PartitionKeySelector::Range(range) => range_has(range, k, def, facts.readings),
    }
}

impl PartitionKeySelector {
    pub open spec fn wf(&self) -> bool {
        match *self {
            PartitionKeySelector::Key(key) => key.wf(),
            PartitionKeySelector::Range(range) => range.wf(),
        }
    }

    /// Whether the selector matches a key, in the order of the definition where
    /// there is one.
    pub fn matches(
        &self,
        key: &PyPartitionKey,
        def: Option<&PartitionsDefinition>,
        facts: &KeyFacts,
    ) -> (r: bool)
        requires
            self.wf(),
            key.wf(),
            def matches Some(d) ==> d.wf(),
            facts.wf(),
        ensures
            r == selector_matches(*self, key@, opt_def(def), *facts),
    {
        match self {
            PartitionKeySelector::Key(k) => k.same(key),
            PartitionKeySelector::Range(range) => range.contains(key, def, &facts.readings),
        }
    }
}

/// A mapping inside another.
#[derive(Debug)]
pub struct BoxedMapping(pub Box<PartitionMapping>);

/// How the keys of a downstream asset map to those of an upstream asset.
#[derive(Debug)]
pub enum PartitionMapping {
    /// Each key maps to itself.
    Identity,
    /// Each key depends on all upstream keys.
    AllPartitions,
    /// Listed keys map as listed, other keys to themselves.
    Static { mapping: NameMap<String> },
    /// Each key maps to the key `offset` windows away.
    TimeWindow { offset: i64 },
    /// Each upstream dimension takes the mapped value of a downstream dimension.
    Multi { dimension_mappings: NameMap<(String, PartitionMapping)> },
    /// One dimension of a several-dimension side maps to a single-dimension side.
    MultiToSingle { dimension_name: String, partition_mapping: BoxedMapping },
    /// All keys map to a set of upstream keys.
    SpecificPartitions { partition_keys: Vec<String> },
    /// The unpartitioned upstream is loaded for the selected keys alone.
    ForKeys { selectors: Vec<PartitionKeySelector> },
    /// The upstream is loaded for the keys that it has.
    Subset,
}

/// Every part of a mapping is well formed.
pub open spec fn mapping_wf(m: PartitionMapping) -> bool
    decreases m,
{
    match m {
        PartitionMapping::Static { mapping } => mapping.wf(),
        PartitionMapping::Multi { dimension_mappings } => dimension_mappings.wf() && mappings_wf(
            dimension_mappings.entries@,
        ),
        PartitionMapping::MultiToSingle { partition_mapping, .. } => mapping_wf(
            *partition_mapping.0,
        ),
        PartitionMapping::ForKeys { selectors } => forall|i: int|
            0 <= i < selectors@.len() ==> (#[trigger] selectors@[i]).wf(),
        _ => true,
    }
}

/// Every mapping of a list is well formed.
pub open spec fn mappings_wf(s: Seq<(String, (String, PartitionMapping))>) -> bool
    decreases s,
{
    s.len() == 0 || (mappings_wf(s.drop_last()) && mapping_wf(s.last().1.1))
}

/// The mappings of a list, one by one.
pub proof fn lemma_mappings_wf(s: Seq<(String, (String, PartitionMapping))>, i: int)
    requires
        mappings_wf(s),
        0 <= i < s.len(),
    ensures
        mapping_wf(s[i].1.1),
    decreases s.len(),
{
    if i < s.len() - 1 {
        lemma_mappings_wf(s.drop_last(), i);
    }
}

/// The mappings of dimensions are smaller than the mapping that holds them.
pub proof fn lemma_mapping_decreases(m: PartitionMapping, i: int)
    requires
        m is Multi,
        0 <= i < m->dimension_mappings.entries@.len(),
    ensures
        decreases_to!(m => m->dimension_mappings.entries@[i].1.1),
{
    let d = m->dimension_mappings;
    assert(decreases_to!(m => d));
    assert(decreases_to!(d => d.entries));
    assert(decreases_to!(d.entries => d.entries@));
    assert(decreases_to!(d.entries@ => d.entries@[i]));
    assert(decreases_to!(d.entries@[i] => d.entries@[i].1));
    assert(decreases_to!(d.entries@[i].1 => d.entries@[i].1.1));
}

/// Resolution of an upstream load decision at materialize time.
#[derive(Debug)]
pub enum UpstreamKeyResolution {
    /// Load upstream with this partition key (None = upstream is unpartitioned).
    Load(Option<PyPartitionKey>),
    /// Skip loading: the parameter receives nothing.
    Skip,
}

/// What a resolution says.
pub enum ResolutionView {
    Load(Option<KeyView>),
    Skip,
}

impl View for UpstreamKeyResolution {
    type V = ResolutionView;

    open spec fn view(&self) -> ResolutionView {
        match *self {
            UpstreamKeyResolution::Load(Some(k)) => ResolutionView::Load(Some(k@)),
            UpstreamKeyResolution::Load(None) => ResolutionView::Load(None),
            UpstreamKeyResolution::Skip => ResolutionView::Skip,
        }
    }
}

/// Why a mapping could not produce a resolution.
#[derive(Debug)]
pub enum MappingResolutionError {
    /// Mapping requires a downstream partition key but none was supplied.
    MissingDownstreamKey { mapping: &'static str },
    /// Mapping requires upstream to be partitioned but it isn't.
    UpstreamNotPartitioned { mapping: &'static str },
    /// The key could not be transformed.
    KeyMappingFailed(String),
    /// An underlying partition definition operation failed.
    DefinitionError(String),
}

/// What a resolution error says.
pub enum ResolutionErrorView {
    MissingDownstreamKey(Seq<char>),
    UpstreamNotPartitioned(Seq<char>),
    KeyMappingFailed(Seq<char>),
    DefinitionError(Seq<char>),
}

impl View for MappingResolutionError {
    type V = ResolutionErrorView;

    open spec fn view(&self) -> ResolutionErrorView {
        match *self {
            MappingResolutionError::MissingDownstreamKey {
                mapping,
            } => ResolutionErrorView::MissingDownstreamKey(mapping@),
            MappingResolutionError::UpstreamNotPartitioned {
                mapping,
            } => ResolutionErrorView::UpstreamNotPartitioned(mapping@),
            MappingResolutionError::KeyMappingFailed(s) => ResolutionErrorView::KeyMappingFailed(
                s@,
            ),
            MappingResolutionError::DefinitionError(s) => ResolutionErrorView::DefinitionError(s@),
        }
    }
}

/// The message of a resolution error.
pub open spec fn resolution_message(e: ResolutionErrorView) -> Seq<char> {
    match e {
        ResolutionErrorView::MissingDownstreamKey(m) => m
            + " mapping requires a downstream partition key"@,
        ResolutionErrorView::UpstreamNotPartitioned(m) => m
            + " mapping requires upstream to be partitioned"@,
        ResolutionErrorView::KeyMappingFailed(s) => s,
        ResolutionErrorView::DefinitionError(s) => s,
    }
}

impl MappingResolutionError {
    /// The message of the error.
    pub fn message(&self) -> (r: String)
        ensures
            r@ == resolution_message(self@),
    {
        match self {
            MappingResolutionError::MissingDownstreamKey { mapping } => {
                let mut s = (*mapping).to_owned();
                s.append(" mapping requires a downstream partition key");
                s
            },
            MappingResolutionError::UpstreamNotPartitioned { mapping } => {
                let mut s = (*mapping).to_owned();
                s.append(" mapping requires upstream to be partitioned");
                s
            },
            MappingResolutionError::KeyMappingFailed(s) => s.clone(),
            MappingResolutionError::DefinitionError(s) => s.clone(),
        }
    }
}

/// The dimensions of a key, as a message lists them.
pub open spec fn dims_listed(m: Map<Seq<char>, Seq<Seq<char>>>) -> Seq<char> {
    quoted_list(set_in_order(m.dom()))
}

/// The upstream key for a downstream key, or why there is none.
pub open spec fn mapped(
    m: PartitionMapping,
    k: KeyView,
    up: Option<DefView>,
    facts: KeyFacts,
) -> Result<KeyView, Seq<char>>
    decreases m,
{
    match m {
        PartitionMapping::Identity => Ok(k),
        PartitionMapping::AllPartitions => Ok(k),
        PartitionMapping::Static { mapping } => match k {
            KeyView::Single(keys) => if keys.len() == 0 {
                Err("Empty partition key"@)
            } else if mapping@.dom().contains(keys[0]) {
                Ok(KeyView::Single(seq![mapping@[keys[0]]@]))
            } else {
                Ok(k)
            },
            _ => Err("Static mapping only works with Single partition keys"@),
        },
        PartitionMapping::TimeWindow { offset } => if offset == 0 {
            Ok(k)
        } else {
            match k {
                KeyView::Single(keys) => if keys.len() == 0 {
                    Err("Empty partition key"@)
                } else {
                    match up {
                        None => Err("TimeWindow mapping requires a partitioned upstream"@),
                        Some(d) => shifted_on(d, keys[0], offset, facts),
                    }
                },
                _ => Err("TimeWindow mapping only works with Single partition keys"@),
            }
        },
        PartitionMapping::Multi { dimension_mappings } => match k {
            KeyView::Multi(dims) => match mapped_dims(
                dimension_mappings.entries@,
                dims,
                up,
                facts,
            ) {
                Ok(r) => Ok(KeyView::Multi(r)),
                Err(e) => Err(e),
            },
            _ => Err("Multi mapping requires a Multi partition key"@),
        },
        PartitionMapping::SpecificPartitions { partition_keys } => Ok(
            KeyView::Single(texts(partition_keys@)),
        ),
        PartitionMapping::ForKeys { .. } => Err(
            "ForKeys mapping uses skip semantics and cannot be resolved via map_key()"@,
        ),
        PartitionMapping::Subset => Err(
            "Subset mapping uses skip semantics and cannot be resolved via map_key()"@,
        ),
        PartitionMapping::MultiToSingle { dimension_name, partition_mapping } => match k {
            KeyView::Single(keys) => match up {
                None => Err(
                    "MultiToSingle (Single→Multi) requires upstream PartitionsDefinition"@,
                ),
                Some(DefView::Multi(dims)) => match mapped(
                    *partition_mapping.0,
                    k,
                    find_dim(dims, dimension_name@),
                    facts,
                ) {
                    Err(e) => Err(e),
                    Ok(KeyView::Single(vals)) => match filled_dims(
                        dims,
                        dimension_name@,
                        vals,
                        facts,
                    ) {
                        Ok(r) => Ok(KeyView::Multi(r)),
                        Err(e) => Err(e),
                    },
                    Ok(_) => Err("Inner mapping produced a Multi key"@),
                },
                Some(_) => Err("MultiToSingle upstream must be a Multi PartitionsDefinition"@),
            },
            KeyView::Multi(dims) => if !dims.dom().contains(dimension_name@) {
                Err(
                    "MultiToSingle expects dimension '"@ + dimension_name@ + "' but key has: "@
                        + dims_listed(dims),
                )
            } else {
                mapped(
                    *partition_mapping.0,
                    KeyView::Single(dims[dimension_name@]),
                    up,
                    facts,
                )
            },
            KeyView::Batch(_) => Err("MultiToSingle mapping does not support batched Set keys"@),
        },
    }
}

/// The key `offset` windows from a key of a time scheme, where the scheme has it.
pub open spec fn shifted_on(d: DefView, key: Seq<char>, offset: i64, facts: KeyFacts) -> Result<
    KeyView,
    Seq<char>,
> {
    match shifted_key(d, key, offset, facts.shifts) {
        Err(e) => Err(fault_text(e)),
        Ok(to) => match key_valid(d, facts.now.at(), KeyView::Single(seq![to]), facts.readings) {
            Err(e) => Err(fault_text(e)),
            Ok(true) => Ok(KeyView::Single(seq![to])),
            Ok(false) => Err(
                "time_window(offset="@ + signed_decimal(offset as int) + ") maps '"@ + key
                    + "' to '"@ + to + "', which is not a partition of the upstream definition"@,
            ),
        },
    }
}

/// The values of each upstream dimension of a list of mappings.
pub open spec fn mapped_dims(
    s: Seq<(String, (String, PartitionMapping))>,
    dims: Map<Seq<char>, Seq<Seq<char>>>,
    up: Option<DefView>,
    facts: KeyFacts,
) -> Result<Map<Seq<char>, Seq<Seq<char>>>, Seq<char>>
    decreases s,
{
    if s.len() == 0 {
        Ok(Map::empty())
    } else {
        match mapped_dims(s.drop_last(), dims, up, facts) {
            Err(e) => Err(e),
            Ok(done) => if !dims.dom().contains(s.last().1.0@) {
                Err(
                    "Multi mapping expects downstream dimension '"@ + s.last().1.0@
                        + "' but key has: "@ + dims_listed(dims),
                )
            } else {
                match mapped(
                    s.last().1.1,
                    KeyView::Single(dims[s.last().1.0@]),
                    match up {
                        Some(d) => dimension_of(d, s.last().0@),
                        None => None,
                    },
                    facts,
                ) {
                    Err(e) => Err(e),
                    Ok(KeyView::Single(vals)) => Ok(done.insert(s.last().0@, vals)),
                    Ok(_) => Err("Per-dimension mapping produced a Multi key"@),
                }
            },
        }
    }
}

proof fn lemma_mapped_dims_prefix(
    s: Seq<(String, (String, PartitionMapping))>,
    dims: Map<Seq<char>, Seq<Seq<char>>>,
    up: Option<DefView>,
    facts: KeyFacts,
    n: int,
)
    requires
        0 <= n <= s.len(),
        mapped_dims(s.take(n), dims, up, facts) is Err,
    ensures
        mapped_dims(s, dims, up, facts) == mapped_dims(s.take(n), dims, up, facts),
    decreases s.len(),
{
    if n < s.len() {
        assert(s.drop_last().take(n) =~= s.take(n));
        lemma_mapped_dims_prefix(s.drop_last(), dims, up, facts, n);
    } else {
        assert(s.take(n) =~= s);
    }
}

/// A key that gives one dimension the values `vals` and each other dimension all
/// of its keys.
pub open spec fn filled_dims(
    dims: Seq<(Seq<char>, DefView)>,
    name: Seq<char>,
    vals: Seq<Seq<char>>,
    facts: KeyFacts,
) -> Result<Map<Seq<char>, Seq<Seq<char>>>, Seq<char>>
    decreases dims.len(),
{
    if dims.len() == 0 {
        Ok(Map::empty())
    } else {
        match filled_dims(dims.drop_last(), name, vals, facts) {
            Err(e) => Err(e),
            Ok(done) => if dims.last().0 == name {
                Ok(done.insert(name, vals))
            } else {
                match single_keys(dims.last().1, facts.now.at()) {
                    Ok(ks) => Ok(done.insert(dims.last().0, ks)),
                    Err(e) => Err(
                        "Failed to get partition keys for dimension '"@ + dims.last().0 + "': "@
                            + fault_text(e),
                    ),
                }
            },
        }
    }
}

proof fn lemma_filled_dims_prefix(
    dims: Seq<(Seq<char>, DefView)>,
    name: Seq<char>,
    vals: Seq<Seq<char>>,
    facts: KeyFacts,
    n: int,
)
    requires
        0 <= n <= dims.len(),
        filled_dims(dims.take(n), name, vals, facts) is Err,
    ensures
        filled_dims(dims, name, vals, facts) == filled_dims(dims.take(n), name, vals, facts),
    decreases dims.len(),
{
    if n < dims.len() {
        assert(dims.drop_last().take(n) =~= dims.take(n));
        lemma_filled_dims_prefix(dims.drop_last(), name, vals, facts, n);
    } else {
        assert(dims.take(n) =~= dims);
    }
}

/// The decision how to load the upstream.
pub open spec fn resolution(
    m: PartitionMapping,
    k: Option<KeyView>,
    down: Option<DefView>,
    up: Option<DefView>,
    facts: KeyFacts,
) -> Result<ResolutionView, ResolutionErrorView> {
    match m {
        PartitionMapping::SpecificPartitions { partition_keys } => Ok(
            ResolutionView::Load(Some(KeyView::Single(texts(partition_keys@)))),
        ),
        PartitionMapping::ForKeys { selectors } => match k {
            None => Err(ResolutionErrorView::MissingDownstreamKey("ForKeys"@)),
            Some(key) => if exists|i: int|
                0 <= i < selectors@.len() && selector_matches(
                    #[trigger] selectors@[i],
                    key,
                    down,
                    facts,
                ) {
                Ok(ResolutionView::Load(None))
            } else {
                Ok(ResolutionView::Skip)
            },
        },
        PartitionMapping::Subset => match k {
            None => Err(ResolutionErrorView::MissingDownstreamKey("Subset"@)),
            Some(key) => match up {
                None => Err(ResolutionErrorView::UpstreamNotPartitioned("Subset"@)),
                Some(d) => match key_valid(d, facts.now.at(), key, facts.readings) {
                    Err(e) => Err(ResolutionErrorView::DefinitionError(fault_text(e))),
                    Ok(true) => Ok(ResolutionView::Load(Some(key))),
                    Ok(false) => Ok(ResolutionView::Skip),
                },
            },
        },
        _ => match k {
            None => Ok(ResolutionView::Load(None)),
            Some(key) => match mapped(m, key, up, facts) {
                Ok(r) => Ok(ResolutionView::Load(Some(r))),
                Err(e) => Err(ResolutionErrorView::KeyMappingFailed(e)),
            },
        },
    }
}

fn listed_dims(keys: &NameMap<Vec<String>>) -> (r: String)
    requires
        keys.wf(),
    ensures
        r@ == dims_listed(dims_view(keys@)),
{
    proof {
        assert(dims_view(keys@).dom() =~= keys@.dom());
    }
    quoted_list_text(&keys.sorted_names())
}

/// Whether a mapped key is what the specification gives.
pub open spec fn says_key(
    r: Result<PyPartitionKey, String>,
    spec: Result<KeyView, Seq<char>>,
) -> bool {
    match r {
        Ok(k) => k.wf() && spec == Ok::<KeyView, Seq<char>>(k@),
        Err(e) => spec == Err::<KeyView, Seq<char>>(e@),
    }
}

fn shift_on(
    def: &PartitionsDefinition,
    k: &str,
    offset: i64,
    facts: &KeyFacts,
) -> (r: Result<PyPartitionKey, String>)
    requires
        def.wf(),
        facts.wf(),
    ensures
        says_key(r, shifted_on(def@, k@, offset, *facts)),
{
    let to = match def.shift_time_key(k, offset, &facts.shifts) {
        Ok(s) => s,
        Err(e) => {
            return Err(e.text());
        },
    };
    let key = PyPartitionKey::of(to.clone());
    match def.validate_partition_key_at(&key, facts.now, &facts.readings) {
        Ok(true) => Ok(key),
        Ok(false) => Err(
            say7(
                "time_window(offset=",
                signed_decimal_text(offset).as_str(),
                ") maps '",
                k,
                "' to '",
                to.as_str(),
                "', which is not a partition of the upstream definition",
            ),
        ),
        Err(e) => Err(e.text()),
    }
}

fn fill_dims(
    dimensions: &Vec<(String, PartitionsDefinition)>,
    name: &str,
    vals: &Vec<String>,
    facts: &KeyFacts,
) -> (r: Result<PyPartitionKey, String>)
    requires
        forall|j: int| 0 <= j < dimensions@.len() ==> def_wf((#[trigger] dimensions@[j]).1),
        facts.wf(),
    ensures
        says_key(
            r,
            match filled_dims(dims_of(dimensions@), name@, texts(vals@), *facts) {
                Ok(m) => Ok(KeyView::Multi(m)),
                Err(e) => Err(e),
            },
        ),
{
    let ghost dims = dims_of(dimensions@);
    let mut out: NameMap<Vec<String>> = NameMap::new();
    let mut i: usize = 0;
    proof {
        lemma_dims_of(dimensions@);
        assert(dims.take(0) =~= Seq::empty());
        assert(dims_view(out@) =~= Map::<Seq<char>, Seq<Seq<char>>>::empty());
    }
    while i < dimensions.len()
        invariant
            facts.wf(),
            dims == dims_of(dimensions@),
            dims.len() == dimensions@.len(),
            forall|j: int|
                0 <= j < dimensions@.len() ==> #[trigger] dims[j] == (
                    dimensions@[j].0@,
                    def_view(dimensions@[j].1),
                ),
            forall|j: int| 0 <= j < dimensions@.len() ==> def_wf((#[trigger] dimensions@[j]).1),
            i <= dimensions@.len(),
            out.wf(),
            filled_dims(dims.take(i as int), name@, texts(vals@), *facts) == Ok::<
                Map<Seq<char>, Seq<Seq<char>>>,
                Seq<char>,
            >(dims_view(out@)),
        decreases dimensions@.len() - i,
    {
        proof {
            assert(dims.take(i + 1).drop_last() =~= dims.take(i as int));
            assert(dims.take(i + 1).last() == dims[i as int]);
        }
        let ghost before = out@;
        if same_text(dimensions[i].0.as_str(), name) {
            let v = copy_texts(vals);
            let ghost vv = v;
            out.insert(dimensions[i].0.clone(), v);
            proof {
                assert(dims_view(out@) =~= dims_view(before).insert(name@, texts(vv@)));
            }
        } else {
            match dimensions[i].1.enumerate_single_dim_keys_at(facts.now) {
                Ok(keys) => {
                    let ghost kv = keys;
                    out.insert(dimensions[i].0.clone(), keys);
                    proof {
                        assert(dims_view(out@) =~= dims_view(before).insert(
                            dims[i as int].0,
                            texts(kv@),
                        ));
                    }
                },
                Err(e) => {
                    proof {
                        lemma_filled_dims_prefix(dims, name@, texts(vals@), *facts, i + 1);
                    }
                    return Err(
                        say4(
                            "Failed to get partition keys for dimension '",
                            dimensions[i].0.as_str(),
                            "': ",
                            e.text().as_str(),
                        ),
                    );
                },
            }
        }
        i += 1;
    }
    proof {
        assert(dims.take(i as int) =~= dims);
    }
    Ok(PyPartitionKey::Multi { keys: out })
}

impl PartitionMapping {
    pub open spec fn wf(&self) -> bool {
        mapping_wf(*self)
    }

    /// For the Multi variant, the dimension mappings.
    pub fn dimension_mappings(&self) -> (r: Option<&NameMap<(String, PartitionMapping)>>)
        ensures
            match r {
                Some(d) => *self == (PartitionMapping::Multi { dimension_mappings: *d }),
                None => !(self is Multi),
            },
    {
        match self {
            PartitionMapping::Multi { dimension_mappings } => Some(dimension_mappings),
            _ => None,
        }
    }

    /// Transform a downstream partition key into an upstream key.
    fn map_key(
        &self,
        downstream_key: &PyPartitionKey,
        upstream_def: Option<&PartitionsDefinition>,
        facts: &KeyFacts,
    ) -> (r: Result<PyPartitionKey, String>)
        requires
            self.wf(),
            downstream_key.wf(),
            upstream_def matches Some(d) ==> d.wf(),
            facts.wf(),
        ensures
            says_key(r, mapped(*self, downstream_key@, opt_def(upstream_def), *facts)),
        decreases self,
    {
        match self {
            PartitionMapping::Identity => Ok(downstream_key.copy()),
            PartitionMapping::AllPartitions => Ok(downstream_key.copy()),
            PartitionMapping::Static { mapping } => match downstream_key {
                PyPartitionKey::Single { key } => {
                    if key.len() == 0 {
                        return Err("Empty partition key".to_owned());
                    }
                    proof {
                        assert(texts(key@)[0] == key@[0]@);
                    }
                    match mapping.get(key[0].as_str()) {
                        Some(to) => Ok(PyPartitionKey::of(to.clone())),
                        None => Ok(downstream_key.copy()),
                    }
                },
                _ => Err("Static mapping only works with Single partition keys".to_owned()),
            },
            PartitionMapping::TimeWindow { offset } => {
                if *offset == 0 {
                    return Ok(downstream_key.copy());
                }
                match downstream_key {
                    PyPartitionKey::Single { key } => {
                        if key.len() == 0 {
                            return Err("Empty partition key".to_owned());
                        }
                        proof {
                            assert(texts(key@)[0] == key@[0]@);
                        }
                        match upstream_def {
                            None => Err(
                                "TimeWindow mapping requires a partitioned upstream".to_owned(),
                            ),
                            Some(def) => shift_on(def, key[0].as_str(), *offset, facts),
                        }
                    },
                    _ => Err("TimeWindow mapping only works with Single partition keys".to_owned()),
                }
            },
            PartitionMapping::Multi { dimension_mappings } => match downstream_key {
                PyPartitionKey::Multi { keys } => {
                    let ghost s = dimension_mappings.entries@;
                    let ghost dims = dims_view(keys@);
                    let mut out: NameMap<Vec<String>> = NameMap::new();
                    let mut i: usize = 0;
                    proof {
                        assert(s.take(0) =~= Seq::empty());
                        assert(dims_view(out@) =~= Map::<Seq<char>, Seq<Seq<char>>>::empty());
                        assert(dims.dom() =~= keys@.dom());
                    }
                    while i < dimension_mappings.entries.len()
                        invariant
                            self.wf(),
                            keys.wf(),
                            facts.wf(),
                            upstream_def matches Some(d) ==> d.wf(),
                            self == (PartitionMapping::Multi {
                                dimension_mappings: *dimension_mappings,
                            }),
                            s == dimension_mappings.entries@,
                            dims == dims_view(keys@),
                            dims.dom() == keys@.dom(),
                            downstream_key@ == KeyView::Multi(dims),
                            i <= s.len(),
                            out.wf(),
                            mapped_dims(s.take(i as int), dims, opt_def(upstream_def), *facts)
                                == Ok::<Map<Seq<char>, Seq<Seq<char>>>, Seq<char>>(
                                dims_view(out@),
                            ),
                        decreases s.len() - i,
                    {
                        proof {
                            lemma_mappings_wf(s, i as int);
                            lemma_mapping_decreases(*self, i as int);
                            assert(s.take(i + 1).drop_last() =~= s.take(i as int));
                            assert(s.take(i + 1).last() == s[i as int]);
                        }
                        let up_dim = dimension_mappings.entries[i].0.as_str();
                        let down_dim = dimension_mappings.entries[i].1.0.as_str();
                        let vals = match keys.get(down_dim) {
                            Some(v) => v,
                            None => {
                                proof {
                                    lemma_mapped_dims_prefix(
                                        s,
                                        dims,
                                        opt_def(upstream_def),
                                        *facts,
                                        i + 1,
                                    );
                                }
                                return Err(
                                    say4(
                                        "Multi mapping expects downstream dimension '",
                                        down_dim,
                                        "' but key has: ",
                                        listed_dims(keys).as_str(),
                                    ),
                                );
                            },
                        };
                        proof {
                            assert(dims[down_dim@] == texts(vals@));
                        }
                        let single = PyPartitionKey::Single { key: copy_texts(vals) };
                        let dim_def = match upstream_def {
                            Some(d) => d.dimension_def(up_dim),
                            None => None,
                        };
                        match dimension_mappings.entries[i].1.1.map_key(&single, dim_def, facts) {
                            Ok(PyPartitionKey::Single { key }) => {
                                let ghost before = out@;
                                let ghost kv = key;
                                out.insert(dimension_mappings.entries[i].0.clone(), key);
                                proof {
                                    assert(dims_view(out@) =~= dims_view(before).insert(
                                        s[i as int].0@,
                                        texts(kv@),
                                    ));
                                }
                            },
                            Ok(_) => {
                                proof {
                                    lemma_mapped_dims_prefix(
                                        s,
                                        dims,
                                        opt_def(upstream_def),
                                        *facts,
                                        i + 1,
                                    );
                                }
                                return Err("Per-dimension mapping produced a Multi key".to_owned());
                            },
                            Err(e) => {
                                proof {
                                    lemma_mapped_dims_prefix(
                                        s,
                                        dims,
                                        opt_def(upstream_def),
                                        *facts,
                                        i + 1,
                                    );
                                }
                                return Err(e);
                            },
                        }
                        i += 1;
                    }
                    proof {
                        assert(s.take(i as int) =~= s);
                    }
                    Ok(PyPartitionKey::Multi { keys: out })
                },
                _ => Err("Multi mapping requires a Multi partition key".to_owned()),
            },
            PartitionMapping::SpecificPartitions { partition_keys } => Ok(
                PyPartitionKey::Single { key: copy_texts(partition_keys) },
            ),
            PartitionMapping::ForKeys { .. } => Err(
                "ForKeys mapping uses skip semantics and cannot be resolved via map_key()".to_owned(),
            ),
            PartitionMapping::Subset => Err(
                "Subset mapping uses skip semantics and cannot be resolved via map_key()".to_owned(),
            ),
            PartitionMapping::MultiToSingle { dimension_name, partition_mapping } => {
                match downstream_key {
                    PyPartitionKey::Single { .. } => match upstream_def {
                        None => Err(
                            "MultiToSingle (Single→Multi) requires upstream PartitionsDefinition".to_owned(),
                        ),
                        Some(def) => match def {
                            PartitionsDefinition::Multi { dimensions } => {
                                proof {
                                    lemma_dims_of(dimensions@);
                                }
                                let named = def.dimension_def(dimension_name.as_str());
                                match partition_mapping.0.map_key(downstream_key, named, facts) {
                                    Ok(PyPartitionKey::Single { key }) => fill_dims(
                                        dimensions,
                                        dimension_name.as_str(),
                                        &key,
                                        facts,
                                    ),
                                    Ok(_) => Err("Inner mapping produced a Multi key".to_owned()),
                                    Err(e) => Err(e),
                                }
                            },
                            _ => Err(
                                "MultiToSingle upstream must be a Multi PartitionsDefinition".to_owned(),
                            ),
                        },
                    },
                    PyPartitionKey::Multi { keys } => {
                        proof {
                            assert(dims_view(keys@).dom() =~= keys@.dom());
                        }
                        match keys.get(dimension_name.as_str()) {
                            Some(vals) => {
                                proof {
                                    assert(dims_view(keys@)[dimension_name@] == texts(vals@));
                                }
                                let single = PyPartitionKey::Single { key: copy_texts(vals) };
                                partition_mapping.0.map_key(&single, upstream_def, facts)
                            },
                            None => Err(
                                say4(
                                    "MultiToSingle expects dimension '",
                                    dimension_name.as_str(),
                                    "' but key has: ",
                                    listed_dims(keys).as_str(),
                                ),
                            ),
                        }
                    },
                    PyPartitionKey::Batch { .. } => Err(
                        "MultiToSingle mapping does not support batched Set keys".to_owned(),
                    ),
                }
            },
        }
    }

    /// Resolve the upstream load decision at materialize time. `downstream_key` is
    /// `None` when the downstream asset is unpartitioned.
    pub fn resolve_upstream_key(
        &self,
        downstream_key: Option<&PyPartitionKey>,
        downstream_def: Option<&PartitionsDefinition>,
        upstream_def: Option<&PartitionsDefinition>,
        facts: &KeyFacts,
    ) -> (r: Result<UpstreamKeyResolution, MappingResolutionError>)
        requires
            self.wf(),
            downstream_key matches Some(k) ==> k.wf(),
            downstream_def matches Some(d) ==> d.wf(),
            upstream_def matches Some(d) ==> d.wf(),
            facts.wf(),
        ensures
            match r {
                Ok(v) => {
                    &&& resolution(
                        *self,
                        opt_key(downstream_key),
                        opt_def(downstream_def),
                        opt_def(upstream_def),
                        *facts,
                    ) == Ok::<ResolutionView, ResolutionErrorView>(v@)
                    &&& v matches UpstreamKeyResolution::Load(Some(k)) ==> k.wf()
                },
                Err(e) => resolution(
                    *self,
                    opt_key(downstream_key),
                    opt_def(downstream_def),
                    opt_def(upstream_def),
                    *facts,
                ) == Err::<ResolutionView, ResolutionErrorView>(e@),
            },
    {
        match self {
            PartitionMapping::SpecificPartitions { partition_keys } => Ok(
                UpstreamKeyResolution::Load(
                    Some(PyPartitionKey::Single { key: copy_texts(partition_keys) }),
                ),
            ),
            PartitionMapping::ForKeys { selectors } => {
                let key = match downstream_key {
                    Some(k) => k,
                    None => {
                        return Err(
                            MappingResolutionError::MissingDownstreamKey { mapping: "ForKeys" },
                        );
                    },
                };
                let mut i: usize = 0;
                while i < selectors.len()
                    invariant
                        facts.wf(),
                        key.wf(),
                        downstream_def matches Some(d) ==> d.wf(),
                        self == (PartitionMapping::ForKeys { selectors: *selectors }),
                        downstream_key == Some(key),
                        forall|j: int|
                            0 <= j < selectors@.len() ==> (#[trigger] selectors@[j]).wf(),
                        i <= selectors@.len(),
                        forall|j: int|
                            0 <= j < i ==> !selector_matches(
                                #[trigger] selectors@[j],
                                key@,
                                opt_def(downstream_def),
                                *facts,
                            ),
                    decreases selectors@.len() - i,
                {
                    if selectors[i].matches(key, downstream_def, facts) {
                        proof {
                            let sel = (*self)->selectors;
                            assert(selector_matches(
                                sel@[i as int],
                                key@,
                                opt_def(downstream_def),
                                *facts,
                            ));
                        }
                        return Ok(UpstreamKeyResolution::Load(None));
                    }
                    i += 1;
                }
                Ok(UpstreamKeyResolution::Skip)
            },
            PartitionMapping::Subset => {
                let key = match downstream_key {
                    Some(k) => k,
                    None => {
                        return Err(
                            MappingResolutionError::MissingDownstreamKey { mapping: "Subset" },
                        );
                    },
                };
                let up = match upstream_def {
                    Some(d) => d,
                    None => {
                        return Err(
                            MappingResolutionError::UpstreamNotPartitioned { mapping: "Subset" },
                        );
                    },
                };
                match up.validate_partition_key_at(key, facts.now, &facts.readings) {
                    Ok(true) => Ok(UpstreamKeyResolution::Load(Some(key.copy()))),
                    Ok(false) => Ok(UpstreamKeyResolution::Skip),
                    Err(e) => Err(MappingResolutionError::DefinitionError(e.text())),
                }
            },
            _ => match downstream_key {
                None => Ok(UpstreamKeyResolution::Load(None)),
                Some(key) => match self.map_key(key, upstream_def, facts) {
                    Ok(k) => Ok(UpstreamKeyResolution::Load(Some(k))),
                    Err(e) => Err(MappingResolutionError::KeyMappingFailed(e)),
                },
            },
        }
    }
}

/// What an optional key stands for.
pub open spec fn opt_key(k: Option<&PyPartitionKey>) -> Option<KeyView> {
    match k {
        Some(key) => Some(key@),
        None => None,
    }
}

} // verus!
