//! Partition schemes: static keys, time windows, several dimensions, and keys
//! that are kept in storage.
use vstd::prelude::*;
use vstd::string::*;
use crate::errors::{Fault, FaultKind, FaultView};
use crate::moment::{local_now, Moment};
use crate::names::NameMap;
use crate::partitions::grid::{
    format_moments, grid_count, grid_end, grid_keys, grid_ticks, page, GridView, TimeGrid,
};
use crate::partitions::key::{keys_view, lemma_keys_view, KeyView, PyPartitionKey};
use crate::partitions::key_set::OrderedKeySet;
use crate::partitions::product::{
    cartesian_product, combo_key, combo_keys, combos, combos_view, dim_keys_view, key_of_combo,
    name_texts, DimKeys,
};
use crate::text::{same_text, texts};

verus! {

/// A partition scheme.
#[derive(Debug)]
pub enum PartitionsDefinition {
    /// A fixed list of keys.
    Static { keys: OrderedKeySet },
    /// The windows of a time grid.
    TimeWindow { grid: TimeGrid },
    /// One key for each of several dimensions.
    Multi { dimensions: Vec<(String, PartitionsDefinition)> },
    /// Keys that storage keeps under a name.
    Dynamic { name: String },
}

/// What a partition scheme stands for.
pub enum DefView {
    Static(Seq<Seq<char>>),
    TimeWindow(GridView),
    Multi(Seq<(Seq<char>, DefView)>),
    Dynamic(Seq<char>),
}

/// What a scheme stands for.
pub open spec fn def_view(d: PartitionsDefinition) -> DefView
    decreases d,
{
    match d {
        PartitionsDefinition::Static { keys } => DefView::Static(keys@),
        PartitionsDefinition::TimeWindow { grid } => DefView::TimeWindow(grid@),
        PartitionsDefinition::Multi { dimensions } => DefView::Multi(dims_of(dimensions@)),
        PartitionsDefinition::Dynamic { name } => DefView::Dynamic(name@),
    }
}

/// What each dimension of a list stands for.
pub open spec fn dims_of(s: Seq<(String, PartitionsDefinition)>) -> Seq<(Seq<char>, DefView)>
    decreases s,
{
    if s.len() == 0 {
        Seq::empty()
    } else {
        dims_of(s.drop_last()).push((s.last().0@, def_view(s.last().1)))
    }
}

/// Static keys do not repeat and moments lie in the calendar.
pub open spec fn def_wf(d: PartitionsDefinition) -> bool
    decreases d,
{
    match d {
        PartitionsDefinition::Static { keys } => keys.wf(),
        PartitionsDefinition::TimeWindow { grid } => grid.wf(),
        PartitionsDefinition::Multi { dimensions } => dims_wf(dimensions@),
        PartitionsDefinition::Dynamic { .. } => true,
    }
}

/// Every dimension of a list is well formed.
pub open spec fn dims_wf(s: Seq<(String, PartitionsDefinition)>) -> bool
    decreases s,
{
    s.len() == 0 || (dims_wf(s.drop_last()) && def_wf(s.last().1))
}

/// The dimensions of a list, by position.
pub proof fn lemma_dims_of(s: Seq<(String, PartitionsDefinition)>)
    ensures
        dims_of(s).len() == s.len(),
        forall|i: int|
            0 <= i < s.len() ==> #[trigger] dims_of(s)[i] == (s[i].0@, def_view(s[i].1)),
        dims_wf(s) <==> forall|i: int| 0 <= i < s.len() ==> def_wf((#[trigger] s[i]).1),
    decreases s.len(),
{
    if s.len() > 0 {
        let w = s.drop_last();
        lemma_dims_of(w);
        assert forall|i: int| 0 <= i < s.len() implies #[trigger] dims_of(s)[i] == (
            s[i].0@,
            def_view(s[i].1),
        ) by {
            if i < w.len() {
                assert(dims_of(w)[i] == (w[i].0@, def_view(w[i].1)));
            }
        }
        if dims_wf(s) {
            assert forall|i: int| 0 <= i < s.len() implies def_wf((#[trigger] s[i]).1) by {
                if i < w.len() {
                    assert(def_wf(w[i].1));
                }
            }
        }
        if forall|i: int| 0 <= i < s.len() ==> def_wf((#[trigger] s[i]).1) {
            assert forall|i: int| 0 <= i < w.len() implies def_wf((#[trigger] w[i]).1) by {
                assert(def_wf(s[i].1));
            }
            assert(def_wf(s[s.len() - 1].1));
        }
    }
}

/// The dimensions of a scheme are smaller than the scheme.
pub proof fn lemma_dim_decreases(d: PartitionsDefinition, i: int)
    requires
        d is Multi,
        0 <= i < d->dimensions@.len(),
    ensures
        decreases_to!(d => d->dimensions@[i].1),
{
    assert(decreases_to!(d => d->dimensions));
    assert(decreases_to!(d->dimensions => d->dimensions@));
    assert(decreases_to!(d->dimensions@ => d->dimensions@[i]));
    assert(decreases_to!(d->dimensions@[i] => d->dimensions@[i].1));
}

/// The single-dimension key of each text of a list.
pub open spec fn single_views(v: Seq<Seq<char>>) -> Seq<KeyView> {
    v.map_values(|k: Seq<char>| KeyView::Single(seq![k]))
}

/// The fault of a time scheme without a cadence.
pub open spec fn no_cadence() -> FaultView {
    (FaultKind::Definition, "TimeWindow requires either cron_schedule or interval_seconds"@)
}

/// The fault of listing the keys of a dynamic scheme.
pub open spec fn dynamic_keys_fault() -> FaultView {
    (FaultKind::NotImplemented, "Cannot enumerate dynamic partition keys"@)
}

/// The fault of taking the keys of a several-dimension scheme for those of one.
pub open spec fn not_single_fault() -> FaultView {
    (
        FaultKind::Definition,
        "enumerate_single_dim_keys called on a non-single-dimension definition"@,
    )
}

/// Whether every key of a list has one dimension.
pub open spec fn all_single(v: Seq<KeyView>) -> bool {
    forall|i: int| 0 <= i < v.len() ==> (#[trigger] v[i]) is Single
}

/// The first text of each key of a list.
pub open spec fn first_texts(v: Seq<KeyView>) -> Seq<Seq<char>> {
    v.map_values(|k: KeyView| k->Single_0[0])
}

/// The texts of a list of single-dimension keys.
pub open spec fn texts_of_keys(r: Result<Seq<KeyView>, FaultView>) -> Result<
    Seq<Seq<char>>,
    FaultView,
> {
    match r {
        Ok(v) => if all_single(v) {
            Ok(first_texts(v))
        } else {
            Err(not_single_fault())
        },
        Err(e) => Err(e),
    }
}

/// All keys of a scheme, in its order, where open time grids end at `now`.
pub open spec fn all_keys(d: DefView, now: int) -> Result<Seq<KeyView>, FaultView>
    decreases d,
{
    match d {
        DefView::Static(keys) => Ok(single_views(keys)),
        DefView::TimeWindow(g) => if g.interval is None && g.cron is None {
            Err(no_cadence())
        } else {
            match grid_keys(g, grid_end(g, now)) {
                Ok(ks) => Ok(single_views(ks)),
                Err(e) => Err(e),
            }
        },
        DefView::Multi(dims) => match dims_keys(dims, now) {
            Ok(dk) => Ok(combo_keys(combos(dk))),
            Err(e) => Err(e),
        },
        DefView::Dynamic(_) => Err(dynamic_keys_fault()),
    }
}

/// The keys of each dimension of a list.
pub open spec fn dims_keys(dims: Seq<(Seq<char>, DefView)>, now: int) -> Result<
    Seq<DimKeys>,
    FaultView,
>
    decreases dims,
{
    if dims.len() == 0 {
        Ok(Seq::empty())
    } else {
        match dims_keys(dims.drop_last(), now) {
            Err(e) => Err(e),
            Ok(v) => match texts_of_keys(all_keys(dims.last().1, now)) {
                Ok(ks) => Ok(v.push((dims.last().0, ks))),
                Err(e) => Err(e),
            },
        }
    }
}

/// The texts of all keys of a single-dimension scheme.
pub open spec fn single_keys(d: DefView, now: int) -> Result<Seq<Seq<char>>, FaultView> {
    texts_of_keys(all_keys(d, now))
}

/// A fault among the first dimensions is the fault of the list.
proof fn lemma_dims_keys_prefix(dims: Seq<(Seq<char>, DefView)>, now: int, n: int)
    requires
        0 <= n <= dims.len(),
        dims_keys(dims.take(n), now) is Err,
    ensures
        dims_keys(dims, now) == dims_keys(dims.take(n), now),
    decreases dims.len(),
{
    if n < dims.len() {
        assert(dims.drop_last().take(n) =~= dims.take(n));
        lemma_dims_keys_prefix(dims.drop_last(), now, n);
    } else {
        assert(dims.take(n) =~= dims);
    }
}

/// A scheme whose open time grids end at `cap`, and whose other time grids end at
/// `cap` where they would end later.
pub open spec fn capped(d: DefView, cap: int) -> DefView
    decreases d,
{
    match d {
        DefView::TimeWindow(g) => DefView::TimeWindow(
            GridView {
                end: Some(
                    match g.end {
                        Some(e) => if cap < e {
                            cap
                        } else {
                            e
                        },
                        None => cap,
                    },
                ),
                ..g
            },
        ),
        DefView::Multi(dims) => DefView::Multi(capped_dims(dims, cap)),
        _ => d,
    }
}

/// The dimensions of a list, each capped.
pub open spec fn capped_dims(dims: Seq<(Seq<char>, DefView)>, cap: int) -> Seq<
    (Seq<char>, DefView),
>
    decreases dims,
{
    if dims.len() == 0 {
        Seq::empty()
    } else {
        capped_dims(dims.drop_last(), cap).push((dims.last().0, capped(dims.last().1, cap)))
    }
}

/// How many keys a scheme has. A dynamic scheme has none of its own, nor has a
/// grid whose schedule cannot be read.
pub open spec fn key_count(d: DefView, now: int) -> nat
    decreases d,
{
    match d {
        DefView::Static(keys) => keys.len(),
        DefView::TimeWindow(g) => grid_count(g, grid_end(g, now)),
        DefView::Multi(dims) => dims_count(dims, now),
        DefView::Dynamic(_) => 0,
    }
}

/// The product of the numbers of keys of a list of dimensions.
pub open spec fn dims_count(dims: Seq<(Seq<char>, DefView)>, now: int) -> nat
    decreases dims,
{
    if dims.len() == 0 {
        1
    } else {
        dims_count(dims.drop_last(), now) * key_count(dims.last().1, now)
    }
}

/// The single-dimension key of each text of a list.
pub fn single_keys_of_texts(v: Vec<String>) -> (r: Vec<PyPartitionKey>)
    ensures
        keys_view(r@) == single_views(texts(v@)),
        forall|i: int| 0 <= i < r@.len() ==> (#[trigger] r@[i]).wf(),
{
    let mut out: Vec<PyPartitionKey> = Vec::new();
    let mut i: usize = 0;
    while i < v.len()
        invariant
            i <= v@.len(),
            out@.len() == i,
            forall|j: int| 0 <= j < i ==> (#[trigger] out@[j]).wf(),
            forall|j: int| 0 <= j < i ==> (#[trigger] out@[j])@ == single_views(texts(v@))[j],
        decreases v@.len() - i,
    {
        out.push(PyPartitionKey::of(v[i].clone()));
        i += 1;
    }
    proof {
        lemma_keys_view(out@);
        assert(keys_view(out@) =~= single_views(texts(v@)));
    }
    out
}

/// The key of each combination of a list.
pub fn keys_of_combos(found: &Vec<NameMap<String>>) -> (r: Vec<PyPartitionKey>)
    requires
        forall|i: int| 0 <= i < found@.len() ==> (#[trigger] found@[i]).wf(),
    ensures
        keys_view(r@) == combo_keys(combos_view(found@)),
        forall|i: int| 0 <= i < r@.len() ==> (#[trigger] r@[i]).wf(),
        forall|i: int| 0 <= i < r@.len() ==> (#[trigger] r@[i]) is Multi,
{
    let mut out: Vec<PyPartitionKey> = Vec::new();
    let mut k: usize = 0;
    while k < found.len()
        invariant
            forall|j: int| 0 <= j < found@.len() ==> (#[trigger] found@[j]).wf(),
            k <= found@.len(),
            out@.len() == k,
            forall|j: int| 0 <= j < k ==> (#[trigger] out@[j]).wf(),
            forall|j: int| 0 <= j < k ==> (#[trigger] out@[j]) is Multi,
            forall|j: int| 0 <= j < k ==> (#[trigger] out@[j])@ == combo_key(name_texts(found@[j]@)),
        decreases found@.len() - k,
    {
        out.push(key_of_combo(&found[k]));
        k += 1;
    }
    proof {
        lemma_keys_view(out@);
        assert forall|j: int| 0 <= j < out@.len() implies keys_view(out@)[j] == combo_keys(
            combos_view(found@),
        )[j] by {
            assert(combos_view(found@)[j] == name_texts(found@[j]@));
        }
        assert(keys_view(out@) =~= combo_keys(combos_view(found@)));
    }
    out
}

impl View for PartitionsDefinition {
    type V = DefView;

    open spec fn view(&self) -> DefView {
        def_view(*self)
    }
}

impl PartitionsDefinition {
    pub open spec fn wf(&self) -> bool {
        def_wf(*self)
    }

    /// Return the variant name as a string.
    pub fn variant_name(&self) -> (r: &'static str)
        ensures
            r@ == variant_of(self@),
    {
        match self {
            PartitionsDefinition::Static { .. } => "Static",
            PartitionsDefinition::TimeWindow { .. } => "TimeWindow",
            PartitionsDefinition::Multi { .. } => "Multi",
            PartitionsDefinition::Dynamic { .. } => "Dynamic",
        }
    }

    /// Check if two definitions are the same variant.
    pub fn same_variant(&self, other: &Self) -> (r: bool)
        ensures
            r == same_variants(self@, other@),
    {
        match (self, other) {
            (PartitionsDefinition::Static { .. }, PartitionsDefinition::Static { .. }) => true,
            (
                PartitionsDefinition::TimeWindow { .. },
                PartitionsDefinition::TimeWindow { .. },
            ) => true,
            (PartitionsDefinition::Multi { .. }, PartitionsDefinition::Multi { .. }) => true,
            (PartitionsDefinition::Dynamic { .. }, PartitionsDefinition::Dynamic { .. }) => true,
            _ => false,
        }
    }

    /// For Static definitions, return the key set.
    pub fn static_keys(&self) -> (r: Option<&OrderedKeySet>)
        ensures
            match r {
                Some(k) => self@ == DefView::Static(k@),
                None => !(self@ is Static),
            },
    {
        match self {
            PartitionsDefinition::Static { keys } => Some(keys),
            _ => None,
        }
    }

    /// The single-dim sub-definition of `Multi` dimension `name`.
    pub fn dimension_def(&self, name: &str) -> (r: Option<&PartitionsDefinition>)
        ensures
            match r {
                Some(d) => {
                    &&& dimension_of(self@, name@) == Some(d@)
                    &&& self.wf() ==> d.wf()
                    &&& decreases_to!(self => d)
                },
                None => dimension_of(self@, name@) is None,
            },
    {
        match self {
            PartitionsDefinition::Multi { dimensions } => {
                proof {
                    lemma_dims_of(dimensions@);
                }
                let mut i: usize = 0;
                while i < dimensions.len()
                    invariant
                        self == (PartitionsDefinition::Multi { dimensions: *dimensions }),
                        i <= dimensions@.len(),
                        dims_of(dimensions@).len() == dimensions@.len(),
                        forall|j: int|
                            0 <= j < dimensions@.len() ==> #[trigger] dims_of(dimensions@)[j] == (
                                dimensions@[j].0@,
                                def_view(dimensions@[j].1),
                            ),
                        forall|j: int| 0 <= j < i ==> (#[trigger] dimensions@[j]).0@ != name@,
                    decreases dimensions@.len() - i,
                {
                    if same_text(dimensions[i].0.as_str(), name) {
                        proof {
                            lemma_find_dim(dims_of(dimensions@), name@, i as int);
                            lemma_dim_decreases(*self, i as int);
                            lemma_dims_of(dimensions@);
                        }
                        return Some(&dimensions[i].1);
                    }
                    i += 1;
                }
                proof {
                    lemma_find_dim(dims_of(dimensions@), name@, i as int);
                }
                None
            },
            _ => None,
        }
    }

    /// Enumerate all valid partition keys, where open time grids end at `now`.
    pub fn get_partition_keys_at(&self, now: Moment) -> (r: Result<Vec<PyPartitionKey>, Fault>)
        requires
            self.wf(),
            now.wf(),
        ensures
            match r {
                Ok(v) => {
                    &&& all_keys(self@, now.at()) == Ok::<Seq<KeyView>, FaultView>(keys_view(v@))
                    &&& forall|i: int| 0 <= i < v@.len() ==> (#[trigger] v@[i]).wf()
                },
                Err(e) => all_keys(self@, now.at()) == Err::<Seq<KeyView>, FaultView>(e@),
            },
        decreases self, 0int,
    {
        match self {
            PartitionsDefinition::Static { keys } => Ok(single_keys_of_texts(keys.iter())),
            PartitionsDefinition::TimeWindow { grid } => {
                if grid.interval_seconds.is_none() && grid.cron_schedule.is_none() {
                    return Err(
                        Fault::definition(
                            "TimeWindow requires either cron_schedule or interval_seconds".to_owned(),
                        ),
                    );
                }
                let end = grid.end_or(now);
                let ticks = grid.ticks(end, 0, usize::MAX)?;
                proof {
                    let ts = grid_ticks(grid@, end.at())->Ok_0;
                    assert(page(ts, 0, usize::MAX as int) =~= ts);
                }
                let keys = format_moments(&ticks, grid.fmt.as_str())?;
                Ok(single_keys_of_texts(keys))
            },
            PartitionsDefinition::Multi { dimensions } => {
                let ghost dims = dims_of(dimensions@);
                proof {
                    lemma_dims_of(dimensions@);
                    assert(dims.take(0) =~= Seq::empty());
                }
                let mut dim_keys: Vec<(String, Vec<String>)> = Vec::new();
                proof {
                    assert(dim_keys_view(dim_keys@) =~= Seq::empty());
                }
                let mut i: usize = 0;
                while i < dimensions.len()
                    invariant
                        now.wf(),
                        self == (PartitionsDefinition::Multi { dimensions: *dimensions }),
                        dims == dims_of(dimensions@),
                        dims.len() == dimensions@.len(),
                        forall|j: int|
                            0 <= j < dimensions@.len() ==> #[trigger] dims[j] == (
                                dimensions@[j].0@,
                                def_view(dimensions@[j].1),
                            ),
                        forall|j: int|
                            0 <= j < dimensions@.len() ==> def_wf((#[trigger] dimensions@[j]).1),
                        i <= dimensions@.len(),
                        dims_keys(dims.take(i as int), now.at()) == Ok::<Seq<DimKeys>, FaultView>(
                            dim_keys_view(dim_keys@),
                        ),
                    decreases dimensions@.len() - i,
                {
                    proof {
                        lemma_dim_decreases(*self, i as int);
                        assert(dims.take(i + 1).drop_last() =~= dims.take(i as int));
                        assert(dims.take(i + 1).last() == dims[i as int]);
                    }
                    match dimensions[i].1.enumerate_single_dim_keys_at(now) {
                        Ok(keys) => {
                            let ghost prev = dim_keys_view(dim_keys@);
                            let ghost ks = keys;
                            dim_keys.push((dimensions[i].0.clone(), keys));
                            proof {
                                assert(dim_keys_view(dim_keys@) =~= prev.push(
                                    (dimensions@[i as int].0@, texts(ks@)),
                                ));
                            }
                        },
                        Err(e) => {
                            proof {
                                lemma_dims_keys_prefix(dims, now.at(), i + 1);
                            }
                            return Err(e);
                        },
                    }
                    i += 1;
                }
                proof {
                    assert(dims.take(i as int) =~= dims);
                }
                let found = cartesian_product(dim_keys.as_slice());
                Ok(keys_of_combos(&found))
            },
            PartitionsDefinition::Dynamic { .. } => Err(
                Fault::new(
                    FaultKind::NotImplemented,
                    "Cannot enumerate dynamic partition keys".to_owned(),
                ),
            ),
        }
    }

    /// Enumerate keys for a single-dimension definition as plain strings, where
    /// open time grids end at `now`.
    pub fn enumerate_single_dim_keys_at(&self, now: Moment) -> (r: Result<Vec<String>, Fault>)
        requires
            self.wf(),
            now.wf(),
        ensures
            match r {
                Ok(v) => single_keys(self@, now.at()) == Ok::<Seq<Seq<char>>, FaultView>(texts(v@)),
                Err(e) => single_keys(self@, now.at()) == Err::<Seq<Seq<char>>, FaultView>(e@),
            },
        decreases self, 1int,
    {
        let keys = self.get_partition_keys_at(now)?;
        proof {
            lemma_keys_view(keys@);
            lemma_key_shape(self@, now.at());
        }
        let mut out: Vec<String> = Vec::new();
        let mut i: usize = 0;
        while i < keys.len()
            invariant
                all_keys(self@, now.at()) == Ok::<Seq<KeyView>, FaultView>(keys_view(keys@)),
                keys_view(keys@).len() == keys@.len(),
                forall|j: int|
                    0 <= j < keys@.len() ==> #[trigger] keys_view(keys@)[j] == keys@[j]@,
                forall|j: int|
                    0 <= j < keys@.len() ==> ((#[trigger] keys_view(keys@)[j]) is Single
                        ==> keys_view(keys@)[j]->Single_0.len() > 0),
                i <= keys@.len(),
                out@.len() == i,
                forall|j: int| 0 <= j < i ==> (#[trigger] keys_view(keys@)[j]) is Single,
                forall|j: int|
                    0 <= j < i ==> (#[trigger] out@[j])@ == keys_view(keys@)[j]->Single_0[0],
            decreases keys@.len() - i,
        {
            proof {
                assert(keys_view(keys@)[i as int] == keys@[i as int]@);
            }
            match &keys[i] {
                PyPartitionKey::Single { key } => {
                    proof {
                        assert(texts(key@).len() == key@.len());
                        assert(texts(key@)[0] == key@[0]@);
                    }
                    out.push(key[0].clone());
                },
                _ => {
                    proof {
                        assert(!(keys_view(keys@)[i as int] is Single));
                    }
                    return Err(
                        Fault::definition(
                            "enumerate_single_dim_keys called on a non-single-dimension definition".to_owned(),
                        ),
                    );
                },
            }
            i += 1;
        }
        proof {
            assert(texts(out@) =~= first_texts(keys_view(keys@)));
        }
        Ok(out)
    }

    /// Enumerate all valid partition keys. Open time grids end at the present
    /// moment.
    pub fn get_partition_keys(&self) -> (r: Result<Vec<PyPartitionKey>, Fault>)
        requires
            self.wf(),
        ensures
            exists|now: Moment|
                now.wf() && match r {
                    Ok(v) => #[trigger] all_keys(self@, now.at()) == Ok::<Seq<KeyView>, FaultView>(
                        keys_view(v@),
                    ),
                    Err(e) => all_keys(self@, now.at()) == Err::<Seq<KeyView>, FaultView>(e@),
                },
    {
        let now = local_now();
        self.get_partition_keys_at(now)
    }

    /// Enumerate keys for a single-dimension definition as plain strings. Open
    /// time grids end at the present moment.
    pub fn enumerate_single_dim_keys(&self) -> (r: Result<Vec<String>, Fault>)
        requires
            self.wf(),
        ensures
            exists|now: Moment|
                now.wf() && match r {
                    Ok(v) => #[trigger] single_keys(self@, now.at()) == Ok::<
                        Seq<Seq<char>>,
                        FaultView,
                    >(texts(v@)),
                    Err(e) => single_keys(self@, now.at()) == Err::<Seq<Seq<char>>, FaultView>(e@),
                },
    {
        let now = local_now();
        self.enumerate_single_dim_keys_at(now)
    }
}

/// The name of a kind of scheme.
pub open spec fn variant_of(d: DefView) -> Seq<char> {
    match d {
        DefView::Static(_) => "Static"@,
        DefView::TimeWindow(_) => "TimeWindow"@,
        DefView::Multi(_) => "Multi"@,
        DefView::Dynamic(_) => "Dynamic"@,
    }
}

/// Whether two schemes are of one kind.
pub open spec fn same_variants(a: DefView, b: DefView) -> bool {
    match (a, b) {
        (DefView::Static(_), DefView::Static(_)) => true,
        (DefView::TimeWindow(_), DefView::TimeWindow(_)) => true,
        (DefView::Multi(_), DefView::Multi(_)) => true,
        (DefView::Dynamic(_), DefView::Dynamic(_)) => true,
        _ => false,
    }
}

/// The first dimension of a list that has a name.
pub open spec fn find_dim(dims: Seq<(Seq<char>, DefView)>, name: Seq<char>) -> Option<DefView>
    decreases dims.len(),
{
    if dims.len() == 0 {
        None
    } else if dims[0].0 == name {
        Some(dims[0].1)
    } else {
        find_dim(dims.drop_first(), name)
    }
}

/// The dimension of a scheme that has a name.
pub open spec fn dimension_of(d: DefView, name: Seq<char>) -> Option<DefView> {
    match d {
        DefView::Multi(dims) => find_dim(dims, name),
        _ => None,
    }
}

/// The first dimension with a name, by position.
pub proof fn lemma_find_dim(dims: Seq<(Seq<char>, DefView)>, name: Seq<char>, n: int)
    requires
        0 <= n <= dims.len(),
        forall|i: int| 0 <= i < n ==> (#[trigger] dims[i]).0 != name,
        n < dims.len() ==> dims[n].0 == name,
    ensures
        find_dim(dims, name) == if n < dims.len() {
            Some(dims[n].1)
        } else {
            None
        },
    decreases n,
{
    if n > 0 {
        let rest = dims.drop_first();
        assert(dims[0].0 != name);
        assert forall|i: int| 0 <= i < n - 1 implies (#[trigger] rest[i]).0 != name by {
            assert(dims[i + 1].0 != name);
        }
        lemma_find_dim(rest, name, n - 1);
    }
}

/// A single-dimension key among the keys of a scheme holds one text.
pub proof fn lemma_key_shape(d: DefView, now: int)
    ensures
        match all_keys(d, now) {
            Ok(v) => forall|i: int|
                0 <= i < v.len() ==> ((#[trigger] v[i]) is Single ==> v[i]->Single_0.len() == 1),
            Err(_) => true,
        },
{
}

} // verus!
