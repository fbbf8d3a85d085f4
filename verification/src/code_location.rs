//! What a code location answers about its assets, and how requests are read.
use vstd::prelude::*;
use vstd::string::*;
use crate::errors::{fault_text, FaultView};
use crate::executor::kind::Executor;
use crate::executor::plan::{NodeInfo, NodeMap};
use crate::moment::Moment;
use crate::names::NameMap;
use crate::partitions::backfill_strategy::PyBackfillStrategy;
use crate::partitions::definition::{
    def_view, def_wf, dimension_of, dims_of, key_count, lemma_dims_of, variant_of, DefView,
    PartitionsDefinition,
};
use crate::partitions::grid::page;
use crate::partitions::key::{
    dims_view, key_view, keys_view, lemma_keys_view, KeyView, PyPartitionKey,
};
use crate::partitions::key_range::{
    DimensionSelection, PartitionKeyRangeInner, PyPartitionKeyRange,
};
use crate::partitions::key_set::OrderedKeySet;
use crate::partitions::listing::{matches_of, pick_range, searchable_keys, window_keys};
use crate::partitions::members::display_of;
use crate::partitions::readings::Readings;
use crate::partitions::rules::key_index;
use crate::moment::at_most;
use crate::text::{decimal, decimal_text, same_text, say3, say5, texts};

verus! {

/// A list, unless it is empty.
pub fn empty_to_none<T>(v: Vec<T>) -> (r: Option<Vec<T>>)
    ensures
        match r {
            Some(w) => w == v && v@.len() > 0,
            None => v@.len() == 0,
        },
{
    if v.len() == 0 {
        None
    } else {
        Some(v)
    }
}

/// A text, unless it is empty.
pub fn empty_text_to_none(s: String) -> (r: Option<String>)
    ensures
        match r {
            Some(t) => t == s && s@.len() > 0,
            None => s@.len() == 0,
        },
{
    if s.as_str().is_empty() {
        None
    } else {
        Some(s)
    }
}

/// A request that a tick makes: a run, with its key where it has one, or something
/// else.
#[derive(Debug)]
pub enum TickRequest {
    Run(Option<String>),
    Other,
}

/// The keys of the runs among requests; one without a key is pending.
pub open spec fn run_ids_of(s: Seq<TickRequest>) -> Seq<Seq<char>>
    decreases s.len(),
{
    if s.len() == 0 {
        Seq::empty()
    } else {
        match s.last() {
            TickRequest::Run(Some(k)) => run_ids_of(s.drop_last()).push(k@),
            TickRequest::Run(None) => run_ids_of(s.drop_last()).push("pending"@),
            TickRequest::Other => run_ids_of(s.drop_last()),
        }
    }
}

/// The keys of the runs among requests.
pub fn collect_run_ids(requests: &Vec<TickRequest>) -> (r: Vec<String>)
    ensures
        texts(r@) == run_ids_of(requests@),
{
    let ghost s = requests@;
    let mut out: Vec<String> = Vec::new();
    let mut i: usize = 0;
    proof {
        assert(s.take(0) =~= Seq::empty());
        assert(texts(out@) =~= Seq::empty());
    }
    while i < requests.len()
        invariant
            s == requests@,
            i <= s.len(),
            texts(out@) == run_ids_of(s.take(i as int)),
        decreases s.len() - i,
    {
        proof {
            assert(s.take(i + 1).drop_last() =~= s.take(i as int));
            assert(s.take(i + 1).last() == s[i as int]);
        }
        let ghost prev = texts(out@);
        match &requests[i] {
            TickRequest::Run(Some(k)) => {
                out.push(k.clone());
                proof {
                    assert(texts(out@) =~= prev.push(k@));
                }
            },
            TickRequest::Run(None) => {
                out.push("pending".to_owned());
                proof {
                    assert(texts(out@) =~= prev.push("pending"@));
                }
            },
            TickRequest::Other => {},
        }
        i += 1;
    }
    proof {
        assert(s.take(i as int) =~= s);
    }
    out
}

/// The definition that a request for partition keys is about, or why there is none.
pub open spec fn target_of(
    nodes: Map<Seq<char>, NodeInfo>,
    asset: Seq<char>,
    dimension: Seq<char>,
) -> Result<DefView, Seq<char>> {
    if !nodes.dom().contains(asset) {
        Err("asset '"@ + asset + "' not found"@)
    } else {
        match nodes[asset].partitions_def {
            None => Err("asset '"@ + asset + "' is not partitioned"@),
            Some(d) => if dimension.len() == 0 {
                Ok(d@)
            } else {
                match dimension_of(d@, dimension) {
                    Some(s) => Ok(s),
                    None => Err(
                        "asset '"@ + asset + "' has no partition dimension '"@ + dimension + "'"@,
                    ),
                }
            },
        }
    }
}

/// The definition that a request for partition keys is about: that of the asset, or of
/// one of its dimensions.
pub fn resolve_partition_target<'a>(nodes: &'a NodeMap, asset_key: &str, dimension: &str) -> (r:
    Result<&'a PartitionsDefinition, String>)
    requires
        crate::executor::plan::nodes_wf(nodes@),
    ensures
        match r {
            Ok(d) => d.wf() && target_of(nodes@, asset_key@, dimension@) == Ok::<
                DefView,
                Seq<char>,
            >(d@),
            Err(e) => target_of(nodes@, asset_key@, dimension@) == Err::<DefView, Seq<char>>(e@),
        },
{
    let node = match nodes.get(asset_key) {
        Some(n) => n,
        None => {
            return Err(say3("asset '", asset_key, "' not found"));
        },
    };
    let def = match &node.partitions_def {
        Some(d) => d,
        None => {
            return Err(say3("asset '", asset_key, "' is not partitioned"));
        },
    };
    if dimension.is_empty() {
        return Ok(def);
    }
    match def.dimension_def(dimension) {
        Some(d) => Ok(d),
        None => Err(
            say5("asset '", asset_key, "' has no partition dimension '", dimension, "'"),
        ),
    }
}

/// The display form of each key of a list.
pub open spec fn shown(keys: Seq<KeyView>) -> Seq<Seq<char>> {
    keys.map_values(|k: KeyView| display_of(k))
}

proof fn lemma_range_no_batch(dims: Seq<(Seq<char>, DefView)>, now: int, from: int, to: int)
    ensures
        pick_range(dims, now, from, to) matches Ok(v) ==> forall|i: int|
            0 <= i < v.len() ==> !((#[trigger] v[i]) is Batch),
    decreases to - from,
{
    if to > from {
        lemma_range_no_batch(dims, now, from, to - 1);
    }
}

proof fn lemma_window_no_batch(d: DefView, now: int, offset: int, limit: int)
    ensures
        window_keys(d, now, offset, limit) matches Ok(v) ==> forall|i: int|
            0 <= i < v.len() ==> !((#[trigger] v[i]) is Batch),
{
    match d {
        DefView::Multi(dims) => {
            lemma_range_no_batch(
                dims,
                now,
                offset,
                crate::partitions::listing::page_end(
                    crate::partitions::definition::dims_count(dims, now) as int,
                    offset,
                    limit,
                ),
            );
        },
        _ => {},
    }
}

fn show_keys(keys: &Vec<PyPartitionKey>) -> (r: Vec<String>)
    requires
        forall|i: int| 0 <= i < keys@.len() ==> (#[trigger] keys@[i]).wf(),
        forall|i: int| 0 <= i < keys@.len() ==> !((#[trigger] keys_view(keys@)[i]) is Batch),
    ensures
        texts(r@) == shown(keys_view(keys@)),
{
    let ghost ks = keys_view(keys@);
    let mut out: Vec<String> = Vec::new();
    let mut i: usize = 0;
    proof {
        lemma_keys_view(keys@);
    }
    while i < keys.len()
        invariant
            ks == keys_view(keys@),
            ks.len() == keys@.len(),
            forall|j: int| 0 <= j < keys@.len() ==> (#[trigger] keys@[j]).wf(),
            forall|j: int| 0 <= j < ks.len() ==> #[trigger] ks[j] == key_view(keys@[j]),
            forall|j: int| 0 <= j < ks.len() ==> !((#[trigger] ks[j]) is Batch),
            i <= ks.len(),
            texts(out@) == shown(ks.take(i as int)),
        decreases ks.len() - i,
    {
        proof {
            assert(ks[i as int] == key_view(keys@[i as int]));
        }
        let s = keys[i].display();
        let ghost prev = texts(out@);
        let ghost e = s@;
        out.push(s);
        proof {
            assert(texts(out@) =~= prev.push(e));
            assert(shown(ks.take(i + 1)) =~= shown(ks.take(i as int)).push(e));
        }
        i += 1;
    }
    proof {
        assert(ks.take(i as int) =~= ks);
    }
    out
}

/// A page of keys and how many there are: without a query of all keys, with one of
/// those that hold it.
pub open spec fn keys_page(
    d: DefView,
    now: int,
    query: Seq<char>,
    offset: int,
    limit: int,
) -> Result<(Seq<Seq<char>>, int), FaultView> {
    if query.len() == 0 {
        match window_keys(d, now, offset, limit) {
            Ok(v) => Ok((shown(v), at_most(usize::MAX as int, key_count(d, now) as int))),
            Err(e) => Err(e),
        }
    } else {
        match searchable_keys(d, now) {
            Ok(ks) => Ok(
                (page(matches_of(ks, query), offset, limit), matches_of(ks, query).len() as int),
            ),
            Err(e) => Err(e),
        }
    }
}

/// A page of the keys of a definition, and how many keys there are to page through.
pub fn get_partition_keys_page(
    target: &PartitionsDefinition,
    now: Moment,
    query: &str,
    offset: usize,
    limit: usize,
) -> (r: Result<(Vec<String>, usize), String>)
    requires
        target.wf(),
        now.wf(),
    ensures
        match r {
            Ok((v, total)) => keys_page(target@, now.at(), query@, offset as int, limit as int)
                == Ok::<(Seq<Seq<char>>, int), FaultView>((texts(v@), total as int)),
            Err(e) => keys_page(
                target@,
                now.at(),
                query@,
                offset as int,
                limit as int,
            ) matches Err(f) && e@ == fault_text(f),
        },
{
    if query.is_empty() {
        let total = target.partition_count_at(now);
        match target.get_partition_keys_window_at(now, offset, limit) {
            Ok(keys) => {
                proof {
                    lemma_window_no_batch(target@, now.at(), offset as int, limit as int);
                    lemma_keys_view(keys@);
                }
                Ok((show_keys(&keys), total))
            },
            Err(e) => Err(e.text()),
        }
    } else {
        match target.get_partition_keys_filtered_at(now, query, offset, limit) {
            Ok((keys, total)) => Ok((keys, total)),
            Err(e) => Err(e.text()),
        }
    }
}

/// Where a key stands among the keys of a definition, or -1.
pub fn get_partition_key_index(
    target: &PartitionsDefinition,
    key: &str,
    now: Moment,
    readings: &Readings,
) -> (r: Result<i128, String>)
    requires
        target.wf(),
        now.wf(),
        readings.wf(),
    ensures
        match r {
            Ok(i) => key_index(target@, now.at(), key@, *readings) == Ok::<Option<int>, FaultView>(
                if i < 0 {
                    None
                } else {
                    Some(i as int)
                },
            ) && i >= -1,
            Err(e) => key_index(target@, now.at(), key@, *readings) matches Err(f) && e@
                == fault_text(f),
        },
{
    match target.single_dim_key_index_at(key, now, readings) {
        Ok(Some(i)) => Ok(i as i128),
        Ok(None) => Ok(-1),
        Err(e) => Err(e.text()),
    }
}

/// How many keys an overview holds at most.
pub const KEYS_WINDOW: usize = 1000;

/// The first keys of a definition as an overview shows them; none where they cannot be
/// listed.
pub open spec fn overview_keys(d: DefView, now: int) -> Seq<Seq<char>> {
    match window_keys(d, now, 0, KEYS_WINDOW as int) {
        Ok(v) => shown(v),
        Err(_) => Seq::empty(),
    }
}

/// How many keys an overview counts.
pub open spec fn overview_count(d: DefView, now: int) -> int {
    at_most(usize::MAX as int, key_count(d, now) as int)
}

/// A dimension in an overview.
#[derive(Debug)]
pub struct DimensionInfo {
    pub name: String,
    pub keys: Vec<String>,
    pub total_count: usize,
    pub keys_truncated: bool,
}

/// What an overview says of a dimension.
pub struct DimensionView {
    pub name: Seq<char>,
    pub keys: Seq<Seq<char>>,
    pub total: int,
    pub truncated: bool,
}

impl View for DimensionInfo {
    type V = DimensionView;

    open spec fn view(&self) -> DimensionView {
        DimensionView {
            name: self.name@,
            keys: texts(self.keys@),
            total: self.total_count as int,
            truncated: self.keys_truncated,
        }
    }
}

/// What an overview says of a dimension.
pub open spec fn dimension_overview(d: (Seq<char>, DefView), now: int) -> DimensionView {
    DimensionView {
        name: d.0,
        keys: overview_keys(d.1, now),
        total: overview_count(d.1, now),
        truncated: overview_keys(d.1, now).len() < overview_count(d.1, now),
    }
}

/// What an overview says of each dimension of a list.
pub open spec fn dimension_overviews(dims: Seq<(Seq<char>, DefView)>, now: int) -> Seq<
    DimensionView,
> {
    dims.map_values(|d: (Seq<char>, DefView)| dimension_overview(d, now))
}

/// What each dimension of an overview says.
pub open spec fn dimensions_view(s: Seq<DimensionInfo>) -> Seq<DimensionView> {
    s.map_values(|d: DimensionInfo| d@)
}

/// The overview of a definition: the first keys of one dimension, or of each of
/// several.
#[derive(Debug)]
pub struct PartitionDefInfo {
    pub kind: String,
    pub keys: Vec<String>,
    pub dimensions: Vec<DimensionInfo>,
    pub total_count: usize,
    pub keys_truncated: bool,
    /// The namespace whose keys the store has.
    pub dynamic_name: String,
}

/// Whether some dimension of an overview is not shown whole.
pub open spec fn some_truncated(s: Seq<DimensionView>) -> bool {
    exists|i: int| 0 <= i < s.len() && (#[trigger] s[i]).truncated
}

/// Whether an overview is that of a definition.
pub open spec fn is_overview(r: PartitionDefInfo, d: DefView, now: int) -> bool {
    &&& r.kind@ == variant_of(d)
    &&& r.total_count == overview_count(d, now)
    &&& match d {
        DefView::Multi(dims) => {
            &&& r.keys@.len() == 0
            &&& dimensions_view(r.dimensions@) == dimension_overviews(dims, now)
            &&& r.keys_truncated == some_truncated(dimension_overviews(dims, now))
            &&& r.dynamic_name@.len() == 0
        },
        DefView::Dynamic(name) => {
            &&& r.keys@.len() == 0
            &&& r.dimensions@.len() == 0
            &&& !r.keys_truncated
            &&& r.dynamic_name@ == name
        },
        _ => {
            &&& texts(r.keys@) == overview_keys(d, now)
            &&& r.dimensions@.len() == 0
            &&& r.keys_truncated == (overview_keys(d, now).len() < overview_count(d, now))
            &&& r.dynamic_name@.len() == 0
        },
    }
}

fn first_keys(d: &PartitionsDefinition, now: Moment) -> (r: Vec<String>)
    requires
        d.wf(),
        now.wf(),
    ensures
        texts(r@) == overview_keys(d@, now.at()),
{
    match d.get_partition_keys_window_at(now, 0, KEYS_WINDOW) {
        Ok(keys) => {
            proof {
                lemma_window_no_batch(d@, now.at(), 0, KEYS_WINDOW as int);
                lemma_keys_view(keys@);
            }
            show_keys(&keys)
        },
        Err(_) => {
            let none: Vec<String> = Vec::new();
            proof {
                assert(texts(none@) =~= Seq::empty());
            }
            none
        },
    }
}

/// The overview of a definition.
pub fn node_partition_def_info(pd: &PartitionsDefinition, now: Moment) -> (r: PartitionDefInfo)
    requires
        pd.wf(),
        now.wf(),
    ensures
        is_overview(r, pd@, now.at()),
{
    let total = pd.partition_count_at(now);
    let kind = pd.variant_name().to_owned();
    match pd {
        PartitionsDefinition::Multi { dimensions } => {
            let ghost dims = dims_of(dimensions@);
            let ghost all = dimension_overviews(dims, now.at());
            let mut infos: Vec<DimensionInfo> = Vec::new();
            let mut truncated = false;
            let mut i: usize = 0;
            proof {
                lemma_dims_of(dimensions@);
                assert(dimensions_view(infos@) =~= all.take(0));
            }
            while i < dimensions.len()
                invariant
                    now.wf(),
                    dims == dims_of(dimensions@),
                    dims.len() == dimensions@.len(),
                    all == dimension_overviews(dims, now.at()),
                    forall|j: int|
                        0 <= j < dims.len() ==> #[trigger] dims[j] == (
                            dimensions@[j].0@,
                            def_view(dimensions@[j].1),
                        ),
                    forall|j: int|
                        0 <= j < dimensions@.len() ==> def_wf((#[trigger] dimensions@[j]).1),
                    i <= dims.len(),
                    dimensions_view(infos@) == all.take(i as int),
                    truncated == some_truncated(all.take(i as int)),
                decreases dims.len() - i,
            {
                proof {
                    assert(dims[i as int] == (
                        dimensions@[i as int].0@,
                        def_view(dimensions@[i as int].1),
                    ));
                }
                let keys = first_keys(&dimensions[i].1, now);
                let count = dimensions[i].1.partition_count_at(now);
                let cut = keys.len() < count;
                let info = DimensionInfo {
                    name: dimensions[i].0.clone(),
                    keys,
                    total_count: count,
                    keys_truncated: cut,
                };
                let ghost prev = dimensions_view(infos@);
                let ghost iv = info@;
                proof {
                    assert(texts(info.keys@).len() == info.keys@.len());
                    assert(iv == all[i as int]);
                }
                infos.push(info);
                proof {
                    assert(dimensions_view(infos@) =~= prev.push(iv));
                    assert(all.take(i + 1) =~= all.take(i as int).push(iv));
                    let before = all.take(i as int);
                    let after = all.take(i + 1);
                    if some_truncated(before) {
                        let j = choose|j: int|
                            0 <= j < before.len() && (#[trigger] before[j]).truncated;
                        assert(after[j].truncated);
                    }
                    if some_truncated(after) && !cut {
                        let j = choose|j: int|
                            0 <= j < after.len() && (#[trigger] after[j]).truncated;
                        assert(before[j].truncated);
                    }
                    if cut {
                        assert(after[i as int].truncated);
                    }
                }
                if cut {
                    truncated = true;
                }
                i += 1;
            }
            proof {
                assert(all.take(i as int) =~= all);
            }
            PartitionDefInfo {
                kind,
                keys: Vec::new(),
                dimensions: infos,
                total_count: total,
                keys_truncated: truncated,
                dynamic_name: String::new(),
            }
        },
        PartitionsDefinition::Dynamic { name } => PartitionDefInfo {
            kind,
            keys: Vec::new(),
            dimensions: Vec::new(),
            total_count: total,
            keys_truncated: false,
            dynamic_name: name.clone(),
        },
        _ => {
            let keys = first_keys(pd, now);
            proof {
                assert(texts(keys@).len() == keys@.len());
            }
            let cut = keys.len() < total;
            PartitionDefInfo {
                kind,
                keys,
                dimensions: Vec::new(),
                total_count: total,
                keys_truncated: cut,
                dynamic_name: String::new(),
            }
        },
    }
}

/// The label of an executor in an overview.
pub open spec fn label_of(e: Option<Executor>) -> Seq<char> {
    match e {
        None => Seq::empty(),
        Some(Executor::InProcess) => "InProcess"@,
        Some(Executor::Parallel { max_workers, .. }) => "Parallel("@ + decimal(max_workers as nat)
            + ")"@,
        Some(Executor::Kubernetes { worker_image, .. }) => "Kubernetes("@ + (match worker_image {
            Some(i) => i@,
            None => "auto"@,
        }) + ")"@,
    }
}

/// The label of an executor in an overview.
pub fn executor_label(e: &Option<Executor>) -> (r: String)
    ensures
        r@ == label_of(*e),
{
    match e {
        None => String::new(),
        Some(Executor::InProcess) => "InProcess".to_owned(),
        Some(Executor::Parallel { max_workers, .. }) => say3(
            "Parallel(",
            decimal_text(*max_workers as u64).as_str(),
            ")",
        ),
        Some(Executor::Kubernetes { worker_image, .. }) => match worker_image {
            Some(i) => say3("Kubernetes(", i.as_str(), ")"),
            None => say3("Kubernetes(", "auto", ")"),
        },
    }
}

/// A partition key as a request carries it.
#[derive(Debug)]
pub enum WireKey {
    Single(Vec<String>),
    Multi(Vec<(String, Vec<String>)>),
}

/// The values of each dimension of a request; the last entry of a name counts.
pub open spec fn wire_dims(s: Seq<(String, Vec<String>)>) -> Map<Seq<char>, Seq<Seq<char>>>
    decreases s.len(),
{
    if s.len() == 0 {
        Map::empty()
    } else {
        wire_dims(s.drop_last()).insert(s.last().0@, texts(s.last().1@))
    }
}

/// The key that a request carries.
pub open spec fn wire_key_of(k: WireKey) -> KeyView {
    match k {
        WireKey::Single(v) => KeyView::Single(texts(v@)),
        WireKey::Multi(dims) => KeyView::Multi(wire_dims(dims@)),
    }
}

/// Reads a partition key of a request.
pub fn proto_partition_key_to_py(k: WireKey) -> (r: PyPartitionKey)
    ensures
        r.wf(),
        r@ == wire_key_of(k),
{
    match k {
        WireKey::Single(key) => PyPartitionKey::Single { key },
        WireKey::Multi(dims) => {
            let ghost s = dims@;
            let mut rest = dims;
            let mut keys: NameMap<Vec<String>> = NameMap::new();
            let ghost mut n: int = 0;
            proof {
                assert(s.take(0) =~= Seq::empty());
                assert(s.skip(0) =~= s);
                assert(dims_view(keys@) =~= Map::empty());
            }
            while rest.len() > 0
                invariant
                    0 <= n <= s.len(),
                    rest@ == s.skip(n),
                    keys.wf(),
                    dims_view(keys@) == wire_dims(s.take(n)),
                decreases rest@.len(),
            {
                let (name, values) = rest.remove(0);
                let ghost p = (name, values);
                let ghost before = keys@;
                proof {
                    assert(s.skip(n)[0] == s[n]);
                    assert(p == s[n]);
                    assert(rest@ =~= s.skip(n + 1));
                    assert(s.take(n + 1).drop_last() =~= s.take(n));
                    assert(s.take(n + 1).last() == s[n]);
                }
                keys.insert(name, values);
                proof {
                    assert(dims_view(keys@) =~= dims_view(before).insert(p.0@, texts(p.1@)));
                    n = n + 1;
                }
            }
            proof {
                assert(s.take(n) =~= s);
            }
            PyPartitionKey::Multi { keys }
        },
    }
}

/// The selection for a dimension as a request carries it.
#[derive(Debug)]
pub enum WireSelection {
    Range(String, String),
    Keys(Vec<String>),
}

/// A range of partition keys as a request carries it; a dimension may lack its
/// selection.
#[derive(Debug)]
pub enum WireRange {
    Single(String, String),
    Multi(Vec<(String, Option<WireSelection>)>),
}

/// Whether every dimension of a range has its selection.
pub open spec fn all_selected(s: Seq<(String, Option<WireSelection>)>) -> bool {
    forall|i: int| 0 <= i < s.len() ==> (#[trigger] s[i]).1 is Some
}

/// What a selection of a request says.
pub open spec fn wire_selection(s: WireSelection) -> crate::partitions::key_range::SelView {
    match s {
        WireSelection::Range(a, b) => crate::partitions::key_range::SelView::Range(a@, b@),
        WireSelection::Keys(v) => crate::partitions::key_range::SelView::Keys(
            crate::partitions::key_set::first_occurrences(texts(v@)),
        ),
    }
}

/// The selection of each dimension of a range.
pub open spec fn wire_selections(s: Seq<(String, Option<WireSelection>)>) -> Map<
    Seq<char>,
    crate::partitions::key_range::SelView,
>
    decreases s.len(),
{
    if s.len() == 0 {
        Map::empty()
    } else {
        wire_selections(s.drop_last()).insert(s.last().0@, wire_selection(s.last().1->0))
    }
}

/// Reads a range of a request. One of whose dimensions lacks its selection is none.
pub fn proto_partition_range_to_py(r: WireRange) -> (out: Option<PyPartitionKeyRange>)
    ensures
        match r {
            WireRange::Single(a, b) => out == Some(
                PyPartitionKeyRange {
                    inner: PartitionKeyRangeInner::Single { from_key: a, to_key: b },
                },
            ),
            WireRange::Multi(dims) => match out {
                Some(x) => {
                    &&& all_selected(dims@)
                    &&& x.wf()
                    &&& x.inner matches PartitionKeyRangeInner::Multi { dimensions }
                        && crate::partitions::key_range::sels_view(dimensions@)
                        == wire_selections(dims@)
                },
                None => !all_selected(dims@),
            },
        },
{
    match r {
        WireRange::Single(from_key, to_key) => Some(
            PyPartitionKeyRange { inner: PartitionKeyRangeInner::Single { from_key, to_key } },
        ),
        WireRange::Multi(dims) => {
            let ghost s = dims@;
            let mut rest = dims;
            let mut dimensions: NameMap<DimensionSelection> = NameMap::new();
            let ghost mut n: int = 0;
            proof {
                assert(s.take(0) =~= Seq::empty());
                assert(s.skip(0) =~= s);
                assert(crate::partitions::key_range::sels_view(dimensions@) =~= Map::empty());
            }
            while rest.len() > 0
                invariant
                    s == dims@,
                    r == WireRange::Multi(dims),
                    0 <= n <= s.len(),
                    rest@ == s.skip(n),
                    forall|i: int| 0 <= i < n ==> (#[trigger] s[i]).1 is Some,
                    dimensions.wf(),
                    crate::partitions::key_range::sels_wf(dimensions@),
                    crate::partitions::key_range::sels_view(dimensions@) == wire_selections(
                        s.take(n),
                    ),
                decreases rest@.len(),
            {
                let (name, selection) = rest.remove(0);
                let ghost p = (name, selection);
                let ghost before = dimensions@;
                proof {
                    assert(s.skip(n)[0] == s[n]);
                    assert(p == s[n]);
                    assert(rest@ =~= s.skip(n + 1));
                    assert(s.take(n + 1).drop_last() =~= s.take(n));
                    assert(s.take(n + 1).last() == s[n]);
                }
                let sel = match selection {
                    Some(WireSelection::Range(from_key, to_key)) => DimensionSelection::Range {
                        from_key,
                        to_key,
                    },
                    Some(WireSelection::Keys(keys)) => DimensionSelection::Keys(
                        OrderedKeySet::new(keys),
                    ),
                    None => {
                        return None;
                    },
                };
                let ghost sv = sel@;
                dimensions.insert(name, sel);
                proof {
                    assert(crate::partitions::key_range::sels_view(dimensions@)
                        =~= crate::partitions::key_range::sels_view(before).insert(p.0@, sv));
                    n = n + 1;
                }
            }
            proof {
                assert(s.take(n) =~= s);
            }
            Some(PyPartitionKeyRange { inner: PartitionKeyRangeInner::Multi { dimensions } })
        },
    }
}

/// A backfill strategy as a request carries it.
#[derive(Debug)]
pub enum WireStrategy {
    Shorthand(String),
    PerDimension(Vec<String>, Vec<String>),
}

/// Reads a backfill strategy of a request: a shorthand that is not that of a single
/// run stands for one run for each key.
pub fn proto_strategy_to_py(s: WireStrategy) -> (r: PyBackfillStrategy)
    ensures
        r == match s {
            WireStrategy::Shorthand(t) => if t@ == "single_run"@ {
                PyBackfillStrategy::SingleRun
            } else {
                PyBackfillStrategy::MultiRun
            },
            WireStrategy::PerDimension(m, n) => PyBackfillStrategy::PerDimension {
                multi_run_dims: m,
                single_run_dims: n,
            },
        },
{
    match s {
        WireStrategy::Shorthand(t) => {
            if same_text(t.as_str(), "single_run") {
                PyBackfillStrategy::SingleRun
            } else {
                PyBackfillStrategy::MultiRun
            }
        },
        WireStrategy::PerDimension(multi_run_dims, single_run_dims) => {
            PyBackfillStrategy::PerDimension { multi_run_dims, single_run_dims }
        },
    }
}

} // verus!
