//! Ranges of partition keys. Order belongs to the definition: static keys are
//! ordered by place, the keys of a time grid by the moment that they read as.
use vstd::prelude::*;
use vstd::string::*;
use crate::errors::{Fault, FaultKind, FaultView};
use crate::moment::{local_now, Moment};
use crate::names::NameMap;
use crate::partitions::definition::{
    def_view, def_wf, dimension_of, dims_of, find_dim, lemma_dims_of, single_keys, single_views,
    DefView, PartitionsDefinition,
};
use crate::partitions::key::{dims_view, keys_view, KeyView, PyPartitionKey};
use crate::partitions::key_set::OrderedKeySet;
use crate::partitions::product::{
    cartesian_product, combo_keys, combos, combos_view, dim_keys_view, DimKeys,
};
use crate::partitions::readings::Readings;
use crate::partitions::rules::{lemma_place_in, place_in, single_valid};
use crate::text::{
    is_before, join_texts, joined, quoted, quoted_each, quoted_text, say3, say4, say5, say7,
    text_at_most, texts,
};

verus! {

/// Whether a key lies in `[from, to]` in the order of a single-dimension
/// definition; without one, in the order of texts.
pub open spec fn in_range(
    key: Seq<char>,
    from: Seq<char>,
    to: Seq<char>,
    def: Option<DefView>,
    readings: Readings,
) -> bool {
    match def {
        Some(DefView::Static(keys)) => keys.contains(from) && keys.contains(to) && keys.contains(
            key,
        ) && place_in(keys, from)->0 <= place_in(keys, key)->0 <= place_in(keys, to)->0,
        Some(DefView::TimeWindow(g)) => match (
            readings.of(key, g.fmt),
            readings.of(from, g.fmt),
            readings.of(to, g.fmt),
        ) {
            (Ok(k), Ok(f), Ok(t)) => f <= k <= t,
            _ => false,
        },
        _ => text_at_most(from, key) && text_at_most(key, to),
    }
}

fn key_in_range(
    key: &str,
    from_key: &str,
    to_key: &str,
    def: Option<&PartitionsDefinition>,
    readings: &Readings,
) -> (r: bool)
    requires
        def matches Some(d) ==> d.wf(),
        readings.wf(),
    ensures
        r == in_range(key@, from_key@, to_key@, opt_def(def), *readings),
{
    match def {
        Some(PartitionsDefinition::Static { keys }) => match (
            keys.get_index_of(from_key),
            keys.get_index_of(to_key),
            keys.get_index_of(key),
        ) {
            (Some(f), Some(t), Some(p)) => {
                proof {
                    lemma_place_in(keys@, from_key@, f as int);
                    lemma_place_in(keys@, to_key@, t as int);
                    lemma_place_in(keys@, key@, p as int);
                }
                p >= f && p <= t
            },
            _ => false,
        },
        Some(PartitionsDefinition::TimeWindow { grid }) => {
            let fmt = grid.fmt.as_str();
            match (readings.read(key, fmt), readings.read(from_key, fmt), readings.read(to_key, fmt)) {
                (Ok(k), Ok(f), Ok(t)) => !k.before(f) && !t.before(k),
                _ => false,
            }
        },
        _ => !is_before(key, from_key) && !is_before(to_key, key),
    }
}

/// What an optional definition stands for.
pub open spec fn opt_def(def: Option<&PartitionsDefinition>) -> Option<DefView> {
    match def {
        Some(d) => Some(d@),
        None => None,
    }
}

/// Names the dimension that a message is about.
pub open spec fn dim_suffix(dim: Option<Seq<char>>) -> Seq<char> {
    match dim {
        Some(d) => " for dimension '"@ + d + "'"@,
        None => Seq::empty(),
    }
}

/// What is wrong with an endpoint that is no key.
pub open spec fn no_such_endpoint(k: Seq<char>, suffix: Seq<char>) -> Seq<char> {
    "Range endpoint '"@ + k + "' is not a partition key"@ + suffix
}

/// What is wrong with an endpoint that cannot be read.
pub open spec fn unreadable_endpoint(k: Seq<char>, fmt: Seq<char>, suffix: Seq<char>) -> Seq<char> {
    "Range endpoint '"@ + k + "' does not match the partition format '"@ + fmt + "'"@ + suffix
}

/// What is wrong with a range that ends before it starts.
pub open spec fn inverted_range(from: Seq<char>, to: Seq<char>, suffix: Seq<char>) -> Seq<char> {
    "from_key '"@ + from + "' is after to_key '"@ + to + "'"@ + suffix
}

/// What is wrong with the endpoints of a range over a single-dimension definition.
pub open spec fn range_fault(
    def: DefView,
    from: Seq<char>,
    to: Seq<char>,
    suffix: Seq<char>,
    readings: Readings,
) -> Option<Seq<char>> {
    match def {
        DefView::Static(keys) => if !keys.contains(from) {
            Some(no_such_endpoint(from, suffix))
        } else if !keys.contains(to) {
            Some(no_such_endpoint(to, suffix))
        } else if place_in(keys, from)->0 > place_in(keys, to)->0 {
            Some(inverted_range(from, to, suffix))
        } else {
            None
        },
        DefView::TimeWindow(g) => match readings.of(from, g.fmt) {
            Err(_) => Some(unreadable_endpoint(from, g.fmt, suffix)),
            Ok(f) => match readings.of(to, g.fmt) {
                Err(_) => Some(unreadable_endpoint(to, g.fmt, suffix)),
                Ok(t) => if f > t {
                    Some(inverted_range(from, to, suffix))
                } else {
                    None
                },
            },
        },
        _ => None,
    }
}

/// Whether a result says what a check found.
pub open spec fn says_text_fault(r: Result<(), String>, spec: Option<Seq<char>>) -> bool {
    match r {
        Ok(()) => spec is None,
        Err(e) => spec == Some(e@),
    }
}

/// The characters of an optional text.
pub open spec fn opt_str(s: Option<&str>) -> Option<Seq<char>> {
    match s {
        Some(t) => Some(t@),
        None => None,
    }
}

/// Validate `[from, to]` endpoints against one single-dimension definition:
/// membership or format, and order.
pub fn validate_single_dim_range(
    def: &PartitionsDefinition,
    from_key: &str,
    to_key: &str,
    dim: Option<&str>,
    readings: &Readings,
) -> (r: Result<(), String>)
    requires
        def.wf(),
        readings.wf(),
    ensures
        says_text_fault(
            r,
            range_fault(def@, from_key@, to_key@, dim_suffix(opt_str(dim)), *readings),
        ),
{
    let suffix = match dim {
        Some(d) => say3(" for dimension '", d, "'"),
        None => String::new(),
    };
    match def {
        PartitionsDefinition::Static { keys } => {
            let f: usize = match keys.get_index_of(from_key) {
                Some(i) => i,
                None => {
                    return Err(
                        say4(
                            "Range endpoint '",
                            from_key,
                            "' is not a partition key",
                            suffix.as_str(),
                        ),
                    );
                },
            };
            let t: usize = match keys.get_index_of(to_key) {
                Some(i) => i,
                None => {
                    proof {
                        lemma_place_in(keys@, from_key@, f as int);
                        assert(keys@[f as int] == from_key@);
                    }
                    return Err(
                        say4(
                            "Range endpoint '",
                            to_key,
                            "' is not a partition key",
                            suffix.as_str(),
                        ),
                    );
                },
            };
            proof {
                lemma_place_in(keys@, from_key@, f as int);
                lemma_place_in(keys@, to_key@, t as int);
                assert(keys@[f as int] == from_key@);
                assert(keys@[t as int] == to_key@);
            }
            if f > t {
                let mut s = say5("from_key '", from_key, "' is after to_key '", to_key, "'");
                s.append(suffix.as_str());
                return Err(s);
            }
            Ok(())
        },
        PartitionsDefinition::TimeWindow { grid } => {
            let f = match readings.read(from_key, grid.fmt.as_str()) {
                Ok(m) => m,
                Err(_) => {
                    let mut s = say5(
                        "Range endpoint '",
                        from_key,
                        "' does not match the partition format '",
                        grid.fmt.as_str(),
                        "'",
                    );
                    s.append(suffix.as_str());
                    return Err(s);
                },
            };
            let t = match readings.read(to_key, grid.fmt.as_str()) {
                Ok(m) => m,
                Err(_) => {
                    let mut s = say5(
                        "Range endpoint '",
                        to_key,
                        "' does not match the partition format '",
                        grid.fmt.as_str(),
                        "'",
                    );
                    s.append(suffix.as_str());
                    return Err(s);
                },
            };
            if t.before(f) {
                let mut s = say5("from_key '", from_key, "' is after to_key '", to_key, "'");
                s.append(suffix.as_str());
                return Err(s);
            }
            Ok(())
        },
        _ => Ok(()),
    }
}

/// The keys of a list that lie in a range.
pub open spec fn keys_in_range(
    v: Seq<Seq<char>>,
    from: Seq<char>,
    to: Seq<char>,
    def: DefView,
    readings: Readings,
) -> Seq<Seq<char>>
    decreases v.len(),
{
    if v.len() == 0 {
        v
    } else {
        let w = keys_in_range(v.drop_last(), from, to, def, readings);
        if in_range(v.last(), from, to, Some(def), readings) {
            w.push(v.last())
        } else {
            w
        }
    }
}

/// The keys of a single-dimension definition in a range, in the order of the
/// definition.
pub open spec fn range_keys(
    def: DefView,
    from: Seq<char>,
    to: Seq<char>,
    suffix: Seq<char>,
    now: int,
    readings: Readings,
) -> Result<Seq<Seq<char>>, FaultView> {
    match range_fault(def, from, to, suffix, readings) {
        Some(msg) => Err((FaultKind::Execution, msg)),
        None => match single_keys(def, now) {
            Ok(ks) => Ok(keys_in_range(ks, from, to, def, readings)),
            Err(e) => Err(e),
        },
    }
}

/// Resolve `[from, to]` against one single-dimension definition using its own
/// ordering.
fn resolve_single_dim_range(
    def: &PartitionsDefinition,
    from_key: &str,
    to_key: &str,
    dim: Option<&str>,
    now: Moment,
    readings: &Readings,
) -> (r: Result<Vec<String>, Fault>)
    requires
        def.wf(),
        now.wf(),
        readings.wf(),
    ensures
        match r {
            Ok(v) => range_keys(
                def@,
                from_key@,
                to_key@,
                dim_suffix(opt_str(dim)),
                now.at(),
                *readings,
            ) == Ok::<Seq<Seq<char>>, FaultView>(texts(v@)),
            Err(e) => range_keys(
                def@,
                from_key@,
                to_key@,
                dim_suffix(opt_str(dim)),
                now.at(),
                *readings,
            ) == Err::<Seq<Seq<char>>, FaultView>(e@),
        },
{
    match validate_single_dim_range(def, from_key, to_key, dim, readings) {
        Ok(()) => {},
        Err(msg) => {
            return Err(Fault::execution(msg));
        },
    }
    let keys = def.enumerate_single_dim_keys_at(now)?;
    let ghost ks = texts(keys@);
    let mut out: Vec<String> = Vec::new();
    let mut i: usize = 0;
    proof {
        assert(ks.take(0) =~= Seq::empty());
        assert(texts(out@) =~= Seq::empty());
    }
    while i < keys.len()
        invariant
            def.wf(),
            readings.wf(),
            ks == texts(keys@),
            i <= keys@.len(),
            texts(out@) == keys_in_range(
                ks.take(i as int),
                from_key@,
                to_key@,
                def@,
                *readings,
            ),
        decreases keys@.len() - i,
    {
        proof {
            assert(ks.take(i + 1).drop_last() =~= ks.take(i as int));
            assert(ks.take(i + 1).last() == keys@[i as int]@);
        }
        if key_in_range(keys[i].as_str(), from_key, to_key, Some(def), readings) {
            let ghost prev = texts(out@);
            out.push(keys[i].clone());
            proof {
                assert(texts(out@) =~= prev.push(keys@[i as int]@));
            }
        }
        i += 1;
    }
    proof {
        assert(ks.take(i as int) =~= ks);
    }
    Ok(out)
}

/// Per-dimension selection: either a range or explicit keys.
#[derive(Debug)]
pub enum DimensionSelection {
    Range { from_key: String, to_key: String },
    Keys(OrderedKeySet),
}

/// What a selection stands for.
pub enum SelView {
    Range(Seq<char>, Seq<char>),
    Keys(Seq<Seq<char>>),
}

impl View for DimensionSelection {
    type V = SelView;

    open spec fn view(&self) -> SelView {
        match *self {
            DimensionSelection::Range { from_key, to_key } => SelView::Range(from_key@, to_key@),
            DimensionSelection::Keys(keys) => SelView::Keys(keys@),
        }
    }
}

/// Whether a selection has a key.
pub open spec fn selection_has(
    sel: SelView,
    key: Seq<char>,
    def: Option<DefView>,
    readings: Readings,
) -> bool {
    match sel {
        SelView::Range(from, to) => in_range(key, from, to, def, readings),
        SelView::Keys(keys) => keys.contains(key),
    }
}

impl DimensionSelection {
    /// Check whether a single key string falls within this selection, using the
    /// dimension's definition ordering when available.
    pub fn contains_key(
        &self,
        key: &str,
        def: Option<&PartitionsDefinition>,
        readings: &Readings,
    ) -> (r: bool)
        requires
            def matches Some(d) ==> d.wf(),
            readings.wf(),
        ensures
            r == selection_has(self@, key@, opt_def(def), *readings),
    {
        match self {
            DimensionSelection::Range { from_key, to_key } => key_in_range(
                key,
                from_key.as_str(),
                to_key.as_str(),
                def,
                readings,
            ),
            DimensionSelection::Keys(allowed) => allowed.contains(key),
        }
    }
}

/// A range of partition keys for backfill operations.
#[derive(Debug)]
pub struct PyPartitionKeyRange {
    pub inner: PartitionKeyRangeInner,
}

/// The two shapes of a range.
#[derive(Debug)]
pub enum PartitionKeyRangeInner {
    Single { from_key: String, to_key: String },
    Multi { dimensions: NameMap<DimensionSelection> },
}

/// Whether a dimension of a key lies in the selection for it.
pub open spec fn dim_in_range(
    name: Seq<char>,
    sel: SelView,
    m: Map<Seq<char>, Seq<Seq<char>>>,
    def: Option<DefView>,
    readings: Readings,
) -> bool {
    m.dom().contains(name) && m[name].len() > 0 && selection_has(
        sel,
        m[name][0],
        match def {
            Some(d) => dimension_of(d, name),
            None => None,
        },
        readings,
    )
}

/// Whether a key lies in a range.
pub open spec fn range_has(
    r: PyPartitionKeyRange,
    k: KeyView,
    def: Option<DefView>,
    readings: Readings,
) -> bool {
    match (r.inner, k) {
        (
            PartitionKeyRangeInner::Single { from_key, to_key },
            KeyView::Single(keys),
        ) => keys.len() > 0 && in_range(keys[0], from_key@, to_key@, def, readings),
        (
            PartitionKeyRangeInner::Multi { dimensions },
            KeyView::Multi(m),
        ) => forall|i: int|
            0 <= i < dimensions.entries@.len() ==> dim_in_range(
                (#[trigger] dimensions.entries@[i]).0@,
                dimensions.entries@[i].1@,
                m,
                def,
                readings,
            ),
        _ => false,
    }
}

/// What is wrong with one dimension of a range.
pub open spec fn dim_range_fault(
    name: Seq<char>,
    sel: SelView,
    dims: Seq<(Seq<char>, DefView)>,
    readings: Readings,
) -> Option<Seq<char>> {
    match sel {
        SelView::Range(from, to) => match find_dim(dims, name) {
            Some(d) => range_fault(d, from, to, dim_suffix(Some(name)), readings),
            None => None,
        },
        SelView::Keys(_) => None,
    }
}

/// What is wrong with the first faulty dimension of a range.
pub open spec fn dims_range_fault(
    s: Seq<(String, DimensionSelection)>,
    dims: Seq<(Seq<char>, DefView)>,
    readings: Readings,
) -> Option<Seq<char>>
    decreases s.len(),
{
    if s.len() == 0 {
        None
    } else {
        match dims_range_fault(s.drop_last(), dims, readings) {
            Some(f) => Some(f),
            None => dim_range_fault(s.last().0@, s.last().1@, dims, readings),
        }
    }
}

proof fn lemma_dims_range_prefix(
    s: Seq<(String, DimensionSelection)>,
    dims: Seq<(Seq<char>, DefView)>,
    readings: Readings,
    n: int,
)
    requires
        0 <= n <= s.len(),
        dims_range_fault(s.take(n), dims, readings) is Some,
    ensures
        dims_range_fault(s, dims, readings) == dims_range_fault(s.take(n), dims, readings),
    decreases s.len(),
{
    if n < s.len() {
        assert(s.drop_last().take(n) =~= s.take(n));
        lemma_dims_range_prefix(s.drop_last(), dims, readings, n);
    } else {
        assert(s.take(n) =~= s);
    }
}

/// What is wrong with a range over a definition.
pub open spec fn against_fault(r: PyPartitionKeyRange, def: DefView, readings: Readings) -> Option<
    Seq<char>,
> {
    match r.inner {
        PartitionKeyRangeInner::Single { from_key, to_key } => range_fault(
            def,
            from_key@,
            to_key@,
            dim_suffix(None),
            readings,
        ),
        PartitionKeyRangeInner::Multi { dimensions } => match def {
            DefView::Multi(dims) => dims_range_fault(dimensions.entries@, dims, readings),
            _ => None,
        },
    }
}

/// The fault of an explicit key that the dimension does not have.
pub open spec fn foreign_key(k: Seq<char>, dim: Seq<char>) -> FaultView {
    (FaultKind::Execution, "'"@ + k + "' is not a partition key of dimension '"@ + dim + "'"@)
}

/// The fault of the first explicit key that a dimension does not have.
pub open spec fn explicit_fault(
    keys: Seq<Seq<char>>,
    dim: (Seq<char>, DefView),
    now: int,
    readings: Readings,
) -> Option<FaultView>
    decreases keys.len(),
{
    if keys.len() == 0 {
        None
    } else {
        match explicit_fault(keys.drop_last(), dim, now, readings) {
            Some(f) => Some(f),
            None => match single_valid(dim.1, now, seq![keys.last()], readings) {
                Ok(true) => None,
                Ok(false) => Some(foreign_key(keys.last(), dim.0)),
                Err(e) => Some(e),
            },
        }
    }
}

proof fn lemma_explicit_prefix(
    keys: Seq<Seq<char>>,
    dim: (Seq<char>, DefView),
    now: int,
    readings: Readings,
    n: int,
)
    requires
        0 <= n <= keys.len(),
        explicit_fault(keys.take(n), dim, now, readings) is Some,
    ensures
        explicit_fault(keys, dim, now, readings) == explicit_fault(
            keys.take(n),
            dim,
            now,
            readings,
        ),
    decreases keys.len(),
{
    if n < keys.len() {
        assert(keys.drop_last().take(n) =~= keys.take(n));
        lemma_explicit_prefix(keys.drop_last(), dim, now, readings, n);
    } else {
        assert(keys.take(n) =~= keys);
    }
}

/// The selected keys of a dimension; all of them where nothing is selected.
pub open spec fn selected_keys(
    dim: (Seq<char>, DefView),
    sels: Map<Seq<char>, DimensionSelection>,
    now: int,
    readings: Readings,
) -> Result<Seq<Seq<char>>, FaultView> {
    if sels.dom().contains(dim.0) {
        match sels[dim.0]@ {
            SelView::Range(from, to) => match range_keys(
                dim.1,
                from,
                to,
                dim_suffix(Some(dim.0)),
                now,
                readings,
            ) {
                Err(e) => Err(e),
                Ok(ks) => if ks.len() == 0 {
                    Err(
                        (
                            FaultKind::Execution,
                            "No keys in range ["@ + from + ", "@ + to + "] for dimension '"@
                                + dim.0 + "'"@,
                        ),
                    )
                } else {
                    Ok(ks)
                },
            },
            SelView::Keys(keys) => match explicit_fault(keys, dim, now, readings) {
                Some(f) => Err(f),
                None => Ok(keys),
            },
        }
    } else {
        single_keys(dim.1, now)
    }
}

/// The selected keys of each dimension of a list.
pub open spec fn selected_dims(
    dims: Seq<(Seq<char>, DefView)>,
    sels: Map<Seq<char>, DimensionSelection>,
    now: int,
    readings: Readings,
) -> Result<Seq<DimKeys>, FaultView>
    decreases dims.len(),
{
    if dims.len() == 0 {
        Ok(Seq::empty())
    } else {
        match selected_dims(dims.drop_last(), sels, now, readings) {
            Err(e) => Err(e),
            Ok(v) => match selected_keys(dims.last(), sels, now, readings) {
                Ok(ks) => Ok(v.push((dims.last().0, ks))),
                Err(e) => Err(e),
            },
        }
    }
}

proof fn lemma_selected_prefix(
    dims: Seq<(Seq<char>, DefView)>,
    sels: Map<Seq<char>, DimensionSelection>,
    now: int,
    readings: Readings,
    n: int,
)
    requires
        0 <= n <= dims.len(),
        selected_dims(dims.take(n), sels, now, readings) is Err,
    ensures
        selected_dims(dims, sels, now, readings) == selected_dims(
            dims.take(n),
            sels,
            now,
            readings,
        ),
    decreases dims.len(),
{
    if n < dims.len() {
        assert(dims.drop_last().take(n) =~= dims.take(n));
        lemma_selected_prefix(dims.drop_last(), sels, now, readings, n);
    } else {
        assert(dims.take(n) =~= dims);
    }
}

/// The keys that a range stands for over a definition.
pub open spec fn resolved(
    r: PyPartitionKeyRange,
    def: DefView,
    now: int,
    readings: Readings,
) -> Result<Seq<KeyView>, FaultView> {
    match r.inner {
        PartitionKeyRangeInner::Single { from_key, to_key } => match range_keys(
            def,
            from_key@,
            to_key@,
            dim_suffix(None),
            now,
            readings,
        ) {
            Err(e) => Err(e),
            Ok(ks) => if ks.len() == 0 {
                Err(
                    (
                        FaultKind::Execution,
                        "No partition keys found in range ["@ + from_key@ + ", "@ + to_key@
                            + "]"@,
                    ),
                )
            } else {
                Ok(single_views(ks))
            },
        },
        PartitionKeyRangeInner::Multi { dimensions } => match def {
            DefView::Multi(dims) => match selected_dims(dims, dimensions@, now, readings) {
                Err(e) => Err(e),
                Ok(dk) => if combos(dk).len() == 0 {
                    Err((FaultKind::Execution, "Partition range resolved to zero keys"@))
                } else {
                    Ok(combo_keys(combos(dk)))
                },
            },
            _ => Err(
                (
                    FaultKind::Execution,
                    "PartitionKeyRange.multi() requires a Multi-partitioned asset"@,
                ),
            ),
        },
    }
}

/// The selected keys of a dimension.
fn select_keys(
    name: &String,
    def: &PartitionsDefinition,
    sels: &NameMap<DimensionSelection>,
    now: Moment,
    readings: &Readings,
) -> (r: Result<Vec<String>, Fault>)
    requires
        def.wf(),
        now.wf(),
        readings.wf(),
    ensures
        match r {
            Ok(v) => selected_keys((name@, def@), sels@, now.at(), *readings) == Ok::<
                Seq<Seq<char>>,
                FaultView,
            >(texts(v@)),
            Err(e) => selected_keys((name@, def@), sels@, now.at(), *readings) == Err::<
                Seq<Seq<char>>,
                FaultView,
            >(e@),
        },
{
    match sels.get(name.as_str()) {
        Some(sel) => match sel {
            DimensionSelection::Range { from_key, to_key } => {
                let keys = resolve_single_dim_range(
                    def,
                    from_key.as_str(),
                    to_key.as_str(),
                    Some(name.as_str()),
                    now,
                    readings,
                )?;
                proof {
                    assert(texts(keys@).len() == keys@.len());
                }
                if keys.len() == 0 {
                    return Err(
                        Fault::execution(
                            say7(
                                "No keys in range [",
                                from_key.as_str(),
                                ", ",
                                to_key.as_str(),
                                "] for dimension '",
                                name.as_str(),
                                "'",
                            ),
                        ),
                    );
                }
                Ok(keys)
            },
            DimensionSelection::Keys(keys) => {
                let ks = keys.iter();
                let mut i: usize = 0;
                proof {
                    assert(keys@.take(0) =~= Seq::empty());
                }
                while i < ks.len()
                    invariant
                        def.wf(),
                        now.wf(),
                        readings.wf(),
                        texts(ks@) == keys@,
                        sels@.dom().contains(name@),
                        sels@[name@]@ == SelView::Keys(keys@),
                        i <= ks@.len(),
                        explicit_fault(
                            keys@.take(i as int),
                            (name@, def@),
                            now.at(),
                            *readings,
                        ) is None,
                    decreases ks@.len() - i,
                {
                    let single = PyPartitionKey::of(ks[i].clone());
                    proof {
                        assert(keys@.take(i + 1).drop_last() =~= keys@.take(i as int));
                        assert(keys@.take(i + 1).last() == ks@[i as int]@);
                    }
                    match def.validate_partition_key_at(&single, now, readings) {
                        Ok(true) => {},
                        Ok(false) => {
                            proof {
                                lemma_explicit_prefix(
                                    keys@,
                                    (name@, def@),
                                    now.at(),
                                    *readings,
                                    i + 1,
                                );
                            }
                            return Err(
                                Fault::execution(
                                    say5(
                                        "'",
                                        ks[i].as_str(),
                                        "' is not a partition key of dimension '",
                                        name.as_str(),
                                        "'",
                                    ),
                                ),
                            );
                        },
                        Err(e) => {
                            proof {
                                lemma_explicit_prefix(
                                    keys@,
                                    (name@, def@),
                                    now.at(),
                                    *readings,
                                    i + 1,
                                );
                            }
                            return Err(e);
                        },
                    }
                    i += 1;
                }
                proof {
                    assert(keys@.take(i as int) =~= keys@);
                }
                Ok(ks)
            },
        },
        None => def.enumerate_single_dim_keys_at(now),
    }
}

/// One dimension of a range as it is given: the ends of a range, or keys.
#[derive(Debug)]
pub enum SelectionSpec {
    Ends(String, String),
    Keys(Vec<String>),
}

/// The first dimension that is given an empty list of keys.
pub open spec fn first_empty_list(s: Seq<(String, SelectionSpec)>) -> Option<int>
    decreases s.len(),
{
    if s.len() == 0 {
        None
    } else {
        match first_empty_list(s.drop_last()) {
            Some(i) => Some(i),
            None => if s.last().1 matches SelectionSpec::Keys(ks) && ks@.len() == 0 {
                Some(s.len() - 1)
            } else {
                None
            },
        }
    }
}

proof fn lemma_first_empty_list_prefix(s: Seq<(String, SelectionSpec)>, n: int)
    requires
        0 <= n <= s.len(),
        first_empty_list(s.take(n)) is Some,
    ensures
        first_empty_list(s) == first_empty_list(s.take(n)),
    decreases s.len(),
{
    if n < s.len() {
        assert(s.drop_last().take(n) =~= s.take(n));
        lemma_first_empty_list_prefix(s.drop_last(), n);
    } else {
        assert(s.take(n) =~= s);
    }
}

/// The selection that a given dimension stands for.
pub open spec fn spec_view(s: SelectionSpec) -> SelView {
    match s {
        SelectionSpec::Ends(from, to) => SelView::Range(from@, to@),
        SelectionSpec::Keys(keys) => SelView::Keys(
            crate::partitions::key_set::first_occurrences(texts(keys@)),
        ),
    }
}

/// The selections that a list of given dimensions stands for; of two with one
/// name the later counts.
pub open spec fn specs_map(s: Seq<(String, SelectionSpec)>) -> Map<Seq<char>, SelView>
    decreases s.len(),
{
    if s.len() == 0 {
        Map::empty()
    } else {
        specs_map(s.drop_last()).insert(s.last().0@, spec_view(s.last().1))
    }
}

/// No key occurs twice in a selection of a map.
pub open spec fn sels_wf(m: Map<Seq<char>, DimensionSelection>) -> bool {
    forall|n: Seq<char>| #[trigger]
        m.dom().contains(n) ==> (m[n] matches DimensionSelection::Keys(k) ==> k.wf())
}

/// The selections of a map.
pub open spec fn sels_view(m: Map<Seq<char>, DimensionSelection>) -> Map<Seq<char>, SelView> {
    m.map_values(|s: DimensionSelection| s@)
}

/// The printed form of a selection for a dimension.
pub open spec fn sel_repr(name: Seq<char>, sel: SelView) -> Seq<char> {
    match sel {
        SelView::Range(from, to) => quoted(name) + ": ("@ + quoted(from) + ", "@ + quoted(to)
            + ")"@,
        SelView::Keys(keys) => quoted(name) + ": {"@ + joined(quoted_each(keys), ", "@) + "}"@,
    }
}

/// The printed form of each selection of a list.
pub open spec fn sels_repr(s: Seq<(String, DimensionSelection)>) -> Seq<Seq<char>> {
    s.map_values(|p: (String, DimensionSelection)| sel_repr(p.0@, p.1@))
}

/// The printed form of a range.
pub open spec fn range_repr(r: PyPartitionKeyRange) -> Seq<char> {
    match r.inner {
        PartitionKeyRangeInner::Single { from_key, to_key } =>
            "PartitionKeyRange.single(from_key="@ + quoted(from_key@) + ", to_key="@ + quoted(
            to_key@,
        ) + ")"@,
        PartitionKeyRangeInner::Multi { dimensions } => "PartitionKeyRange.multi({"@ + joined(
            sels_repr(dimensions.entries@),
            ", "@,
        ) + "})"@,
    }
}

impl PyPartitionKeyRange {
    /// No dimension is selected twice, nor a key in one.
    pub open spec fn wf(&self) -> bool {
        self.inner matches PartitionKeyRangeInner::Multi { dimensions } ==> dimensions.wf()
            && sels_wf(dimensions@)
    }

    /// A single-dimension range.
    pub fn single(from_key: String, to_key: String) -> (r: Self)
        ensures
            r.wf(),
            r.inner == (PartitionKeyRangeInner::Single { from_key, to_key }),
    {
        PyPartitionKeyRange { inner: PartitionKeyRangeInner::Single { from_key, to_key } }
    }

    /// A multi-dimension range.
    pub fn multi(dimensions: Vec<(String, SelectionSpec)>) -> (r: Result<Self, Fault>)
        ensures
            match r {
                Ok(range) => range.wf() && dimensions@.len() > 0 && first_empty_list(
                    dimensions@,
                ) is None && (range.inner matches PartitionKeyRangeInner::Multi { dimensions: d }
                    && sels_view(d@) == specs_map(dimensions@)),
                Err(e) => match first_empty_list(dimensions@) {
                    Some(i) => e@ == (
                        FaultKind::Definition,
                        "key list for dimension '"@ + dimensions@[i].0@ + "' must not be empty"@,
                    ),
                    None => dimensions@.len() == 0 && e@ == (
                        FaultKind::Definition,
                        "dimensions dict must not be empty"@,
                    ),
                },
            },
    {
        let mut result: NameMap<DimensionSelection> = NameMap::new();
        let mut i: usize = 0;
        proof {
            assert(dimensions@.take(0) =~= Seq::empty());
            assert(sels_view(result@) =~= specs_map(dimensions@.take(0)));
        }
        while i < dimensions.len()
            invariant
                i <= dimensions@.len(),
                result.wf(),
                sels_wf(result@),
                first_empty_list(dimensions@.take(i as int)) is None,
                sels_view(result@) == specs_map(dimensions@.take(i as int)),
            decreases dimensions@.len() - i,
        {
            proof {
                assert(dimensions@.take(i + 1).drop_last() =~= dimensions@.take(i as int));
                assert(dimensions@.take(i + 1).last() == dimensions@[i as int]);
            }
            let sel = match &dimensions[i].1 {
                SelectionSpec::Ends(from, to) => DimensionSelection::Range {
                    from_key: from.clone(),
                    to_key: to.clone(),
                },
                SelectionSpec::Keys(keys) => {
                    if keys.len() == 0 {
                        proof {
                            lemma_first_empty_list_prefix(dimensions@, i + 1);
                        }
                        return Err(
                            Fault::definition(
                                say3(
                                    "key list for dimension '",
                                    dimensions[i].0.as_str(),
                                    "' must not be empty",
                                ),
                            ),
                        );
                    }
                    DimensionSelection::Keys(OrderedKeySet::new(crate::text::copy_texts(keys)))
                },
            };
            let ghost before = result@;
            let ghost sv = sel;
            result.insert(dimensions[i].0.clone(), sel);
            proof {
                assert(sels_view(result@) =~= sels_view(before).insert(
                    dimensions@[i as int].0@,
                    sv@,
                ));
            }
            i += 1;
        }
        proof {
            assert(dimensions@.take(i as int) =~= dimensions@);
        }
        if dimensions.len() == 0 {
            return Err(Fault::definition("dimensions dict must not be empty".to_owned()));
        }
        Ok(PyPartitionKeyRange { inner: PartitionKeyRangeInner::Multi { dimensions: result } })
    }

    /// Check whether a partition key falls within this range, using the
    /// definition's ordering when provided.
    pub fn contains(
        &self,
        key: &PyPartitionKey,
        def: Option<&PartitionsDefinition>,
        readings: &Readings,
    ) -> (r: bool)
        requires
            def matches Some(d) ==> d.wf(),
            readings.wf(),
        ensures
            r == range_has(*self, key@, opt_def(def), *readings),
    {
        match (&self.inner, key) {
            (
                PartitionKeyRangeInner::Single { from_key, to_key },
                PyPartitionKey::Single { key: parts },
            ) => {
                if parts.len() == 0 {
                    return false;
                }
                proof {
                    assert(texts(parts@)[0] == parts@[0]@);
                }
                key_in_range(parts[0].as_str(), from_key.as_str(), to_key.as_str(), def, readings)
            },
            (
                PartitionKeyRangeInner::Multi { dimensions },
                PyPartitionKey::Multi { keys },
            ) => {
                let ghost m = dims_view(keys@);
                let mut i: usize = 0;
                while i < dimensions.entries.len()
                    invariant
                        def matches Some(d) ==> d.wf(),
                        readings.wf(),
                        m == dims_view(keys@),
                        key@ == KeyView::Multi(m),
                        self.inner == (PartitionKeyRangeInner::Multi { dimensions: *dimensions }),
                        i <= dimensions.entries@.len(),
                        forall|j: int|
                            0 <= j < i ==> dim_in_range(
                                (#[trigger] dimensions.entries@[j]).0@,
                                dimensions.entries@[j].1@,
                                m,
                                opt_def(def),
                                *readings,
                            ),
                    decreases dimensions.entries@.len() - i,
                {
                    let name = dimensions.entries[i].0.as_str();
                    let dim_def = match def {
                        Some(d) => d.dimension_def(name),
                        None => None,
                    };
                    proof {
                        assert(m.dom() =~= keys@.dom());
                    }
                    let inside = match keys.get(name) {
                        Some(vals) => {
                            proof {
                                assert(m[name@] == texts(vals@));
                                assert(texts(vals@).len() == vals@.len());
                            }
                            if vals.len() == 0 {
                                false
                            } else {
                                proof {
                                    assert(texts(vals@)[0] == vals@[0]@);
                                }
                                dimensions.entries[i].1.contains_key(
                                    vals[0].as_str(),
                                    dim_def,
                                    readings,
                                )
                            }
                        },
                        None => false,
                    };
                    if !inside {
                        proof {
                            let e = self.inner->dimensions.entries@[i as int];
                            assert(!dim_in_range(e.0@, e.1@, m, opt_def(def), *readings));
                        }
                        return false;
                    }
                    i += 1;
                }
                true
            },
            _ => false,
        }
    }

    /// Validate this range's endpoints against the definition it will be matched
    /// against.
    pub fn validate_against(&self, def: &PartitionsDefinition, readings: &Readings) -> (r: Result<
        (),
        String,
    >)
        requires
            def.wf(),
            readings.wf(),
        ensures
            says_text_fault(r, against_fault(*self, def@, *readings)),
    {
        match &self.inner {
            PartitionKeyRangeInner::Single { from_key, to_key } => validate_single_dim_range(
                def,
                from_key.as_str(),
                to_key.as_str(),
                None,
                readings,
            ),
            PartitionKeyRangeInner::Multi { dimensions } => {
                match def {
                    PartitionsDefinition::Multi { .. } => {},
                    _ => {
                        return Ok(());
                    },
                }
                let ghost dims = def@->Multi_0;
                let ghost s = dimensions.entries@;
                let mut i: usize = 0;
                proof {
                    assert(s.take(0) =~= Seq::empty());
                }
                while i < dimensions.entries.len()
                    invariant
                        def.wf(),
                        readings.wf(),
                        def@ == DefView::Multi(dims),
                        s == dimensions.entries@,
                        self.inner == (PartitionKeyRangeInner::Multi { dimensions: *dimensions }),
                        i <= s.len(),
                        dims_range_fault(s.take(i as int), dims, *readings) is None,
                    decreases s.len() - i,
                {
                    proof {
                        assert(s.take(i + 1).drop_last() =~= s.take(i as int));
                        assert(s.take(i + 1).last() == s[i as int]);
                    }
                    let name = dimensions.entries[i].0.as_str();
                    if let DimensionSelection::Range { from_key, to_key } = &dimensions.entries[i].1 {
                        if let Some(d) = def.dimension_def(name) {
                            let r = validate_single_dim_range(
                                d,
                                from_key.as_str(),
                                to_key.as_str(),
                                Some(name),
                                readings,
                            );
                            if r.is_err() {
                                proof {
                                    lemma_dims_range_prefix(s, dims, *readings, i + 1);
                                }
                                return r;
                            }
                        }
                    }
                    i += 1;
                }
                proof {
                    assert(s.take(i as int) =~= s);
                }
                Ok(())
            },
        }
    }

    /// Resolve this range into concrete partition keys, where open time grids end
    /// at `now`.
    pub fn resolve_at(&self, parts_def: &PartitionsDefinition, now: Moment, readings: &Readings) -> (r:
        Result<Vec<PyPartitionKey>, Fault>)
        requires
            parts_def.wf(),
            now.wf(),
            readings.wf(),
        ensures
            match r {
                Ok(v) => {
                    &&& resolved(*self, parts_def@, now.at(), *readings) == Ok::<
                        Seq<KeyView>,
                        FaultView,
                    >(keys_view(v@))
                    &&& forall|i: int| 0 <= i < v@.len() ==> (#[trigger] v@[i]).wf()
                },
                Err(e) => resolved(*self, parts_def@, now.at(), *readings) == Err::<
                    Seq<KeyView>,
                    FaultView,
                >(e@),
            },
    {
        match &self.inner {
            PartitionKeyRangeInner::Single { from_key, to_key } => {
                let keys = resolve_single_dim_range(
                    parts_def,
                    from_key.as_str(),
                    to_key.as_str(),
                    None,
                    now,
                    readings,
                )?;
                proof {
                    assert(texts(keys@).len() == keys@.len());
                }
                if keys.len() == 0 {
                    return Err(
                        Fault::execution(
                            say5(
                                "No partition keys found in range [",
                                from_key.as_str(),
                                ", ",
                                to_key.as_str(),
                                "]",
                            ),
                        ),
                    );
                }
                Ok(crate::partitions::definition::single_keys_of_texts(keys))
            },
            PartitionKeyRangeInner::Multi { dimensions: sels } => match parts_def {
                PartitionsDefinition::Multi { dimensions } => {
                    let ghost dims = dims_of(dimensions@);
                    let mut chosen: Vec<(String, Vec<String>)> = Vec::new();
                    let mut i: usize = 0;
                    proof {
                        lemma_dims_of(dimensions@);
                        assert(dims.take(0) =~= Seq::empty());
                        assert(dim_keys_view(chosen@) =~= Seq::empty());
                    }
                    while i < dimensions.len()
                        invariant
                            now.wf(),
                            readings.wf(),
                            self.inner == (PartitionKeyRangeInner::Multi { dimensions: *sels }),
                            parts_def@ == DefView::Multi(dims),
                            dims.len() == dimensions@.len(),
                            forall|j: int|
                                0 <= j < dimensions@.len() ==> #[trigger] dims[j] == (
                                    dimensions@[j].0@,
                                    def_view(dimensions@[j].1),
                                ),
                            forall|j: int|
                                0 <= j < dimensions@.len() ==> def_wf(
                                    (#[trigger] dimensions@[j]).1,
                                ),
                            i <= dimensions@.len(),
                            selected_dims(dims.take(i as int), sels@, now.at(), *readings) == Ok::<
                                Seq<DimKeys>,
                                FaultView,
                            >(dim_keys_view(chosen@)),
                        decreases dimensions@.len() - i,
                    {
                        proof {
                            assert(dims.take(i + 1).drop_last() =~= dims.take(i as int));
                            assert(dims.take(i + 1).last() == dims[i as int]);
                        }
                        match select_keys(&dimensions[i].0, &dimensions[i].1, sels, now, readings) {
                            Ok(keys) => {
                                let ghost prev = dim_keys_view(chosen@);
                                let ghost ks = keys;
                                chosen.push((dimensions[i].0.clone(), keys));
                                proof {
                                    assert(dim_keys_view(chosen@) =~= prev.push(
                                        (dimensions@[i as int].0@, texts(ks@)),
                                    ));
                                }
                            },
                            Err(e) => {
                                proof {
                                    lemma_selected_prefix(dims, sels@, now.at(), *readings, i + 1);
                                }
                                return Err(e);
                            },
                        }
                        i += 1;
                    }
                    proof {
                        assert(dims.take(i as int) =~= dims);
                    }
                    let found = cartesian_product(chosen.as_slice());
                    proof {
                        assert(combos_view(found@).len() == found@.len());
                    }
                    if found.len() == 0 {
                        return Err(
                            Fault::execution("Partition range resolved to zero keys".to_owned()),
                        );
                    }
                    Ok(crate::partitions::definition::keys_of_combos(&found))
                },
                _ => Err(
                    Fault::execution(
                        "PartitionKeyRange.multi() requires a Multi-partitioned asset".to_owned(),
                    ),
                ),
            },
        }
    }

    /// Resolve this range into concrete partition keys. Open time grids end at the
    /// present moment.
    pub fn resolve(&self, parts_def: &PartitionsDefinition, readings: &Readings) -> (r: Result<
        Vec<PyPartitionKey>,
        Fault,
    >)
        requires
            parts_def.wf(),
            readings.wf(),
        ensures
            exists|now: Moment|
                now.wf() && match r {
                    Ok(v) => #[trigger] resolved(*self, parts_def@, now.at(), *readings) == Ok::<
                        Seq<KeyView>,
                        FaultView,
                    >(keys_view(v@)),
                    Err(e) => resolved(*self, parts_def@, now.at(), *readings) == Err::<
                        Seq<KeyView>,
                        FaultView,
                    >(e@),
                },
    {
        let now = local_now();
        self.resolve_at(parts_def, now, readings)
    }

    /// The printed form of the range.
    pub fn repr(&self) -> (r: String)
        ensures
            r@ == range_repr(*self),
    {
        match &self.inner {
            PartitionKeyRangeInner::Single { from_key, to_key } => say5(
                "PartitionKeyRange.single(from_key=",
                quoted_text(from_key.as_str()).as_str(),
                ", to_key=",
                quoted_text(to_key.as_str()).as_str(),
                ")",
            ),
            PartitionKeyRangeInner::Multi { dimensions } => {
                let ghost s = dimensions.entries@;
                let mut out: Vec<String> = Vec::new();
                let mut i: usize = 0;
                while i < dimensions.entries.len()
                    invariant
                        s == dimensions.entries@,
                        i <= s.len(),
                        texts(out@) == sels_repr(s.take(i as int)),
                    decreases s.len() - i,
                {
                    let name = quoted_text(dimensions.entries[i].0.as_str());
                    let e = match &dimensions.entries[i].1 {
                        DimensionSelection::Range { from_key, to_key } => {
                            let mut t = say5(
                                name.as_str(),
                                ": (",
                                quoted_text(from_key.as_str()).as_str(),
                                ", ",
                                quoted_text(to_key.as_str()).as_str(),
                            );
                            t.append(")");
                            t
                        },
                        DimensionSelection::Keys(keys) => say4(
                            name.as_str(),
                            ": {",
                            join_texts(&crate::text::quote_each(&keys.iter()), ", ").as_str(),
                            "}",
                        ),
                    };
                    let ghost prev = texts(out@);
                    let ghost ev = e@;
                    out.push(e);
                    proof {
                        assert(ev == sel_repr(s[i as int].0@, s[i as int].1@));
                        assert(texts(out@) =~= prev.push(ev));
                        assert(sels_repr(s.take(i + 1)) =~= sels_repr(s.take(i as int)).push(ev));
                    }
                    i += 1;
                }
                proof {
                    assert(s.take(i as int) =~= s);
                }
                say3("PartitionKeyRange.multi({", join_texts(&out, ", ").as_str(), "})")
            },
        }
    }
}

} // verus!
