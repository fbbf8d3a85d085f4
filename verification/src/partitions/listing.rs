//! Counting, paging and searching the keys of a partition scheme without listing
//! them all.
use vstd::prelude::*;
use vstd::string::*;
use crate::errors::{Fault, FaultKind, FaultView};
use crate::moment::{at_most, local_now, Moment};
use crate::names::NameMap;
use crate::partitions::definition::{
    all_keys, capped, capped_dims, def_view, def_wf, dims_count, dims_of, key_count,
    lemma_dim_decreases, lemma_dims_of, single_keys, single_views, DefView, PartitionsDefinition,
};
use crate::partitions::grid::{
    format_all, format_moments, grid_end, grid_keys, grid_ticks, page, GridView, TimeGrid,
};
use crate::partitions::key::{dims_view, keys_view, lemma_keys_view, KeyView, PyPartitionKey};
use crate::text::{contains_text, decimal, decimal_text, occurs_in, say4, texts};

verus! {

/// The product of two lengths, as far as a length can hold it.
fn capped_product(a: usize, b: usize) -> (r: usize)
    ensures
        r == at_most(usize::MAX as int, a * b),
{
    match a.checked_mul(b) {
        Some(c) => c,
        None => usize::MAX,
    }
}

/// A product with a capped factor, capped, is the product, capped.
proof fn lemma_capped_product(a: int, b: int)
    requires
        a >= 0,
        b >= 0,
    ensures
        at_most(usize::MAX as int, at_most(usize::MAX as int, a) * at_most(usize::MAX as int, b))
            == at_most(usize::MAX as int, a * b),
{
    let m = usize::MAX as int;
    if b == 0 {
        assert(a * b == 0) by (nonlinear_arith)
            requires
                b == 0,
        ;
        assert(at_most(m, a) * 0 == 0);
    } else if a == 0 {
        assert(a * b == 0) by (nonlinear_arith)
            requires
                a == 0,
        ;
        assert(0 * at_most(m, b) == 0);
    } else {
        let x = at_most(m, a);
        let y = at_most(m, b);
        if a > m || b > m {
            assert(a * b >= m) by (nonlinear_arith)
                requires
                    a >= 1,
                    b >= 1,
                    a > m || b > m,
                    m > 0,
            ;
            assert(x * y >= m) by (nonlinear_arith)
                requires
                    x >= 1,
                    y >= 1,
                    x >= m || y >= m,
                    m > 0,
            ;
        }
    }
}

/// The count of a list of dimensions, taken from its front.
pub proof fn lemma_dims_count_front(dims: Seq<(Seq<char>, DefView)>, now: int)
    requires
        dims.len() > 0,
    ensures
        dims_count(dims, now) == key_count(dims[0].1, now) * dims_count(dims.drop_first(), now),
    decreases dims.len(),
{
    if dims.len() == 1 {
        assert(dims.drop_last() =~= Seq::empty());
        assert(dims.drop_first() =~= Seq::empty());
        assert(1 * key_count(dims[0].1, now) == key_count(dims[0].1, now) * 1);
    } else {
        let w = dims.drop_last();
        lemma_dims_count_front(w, now);
        assert(dims.drop_first().drop_last() =~= w.drop_first());
        assert(dims.drop_first().last() == dims.last());
        let a = key_count(dims[0].1, now);
        let b = dims_count(w.drop_first(), now);
        let c = key_count(dims.last().1, now);
        assert((a * b) * c == a * (b * c)) by (nonlinear_arith);
    }
}

/// The keys of a grid before `end` from number `offset` on, at most `limit` of
/// them.
pub open spec fn grid_page(g: GridView, end: int, offset: int, limit: int) -> Result<
    Seq<Seq<char>>,
    FaultView,
> {
    match grid_ticks(g, end) {
        Ok(ts) => format_all(page(ts, offset, limit), g.fmt),
        Err(e) => Err(e),
    }
}

/// Key number `idx` of a single-dimension scheme.
pub open spec fn nth_key(d: DefView, now: int, idx: int) -> Result<Option<Seq<char>>, FaultView> {
    match d {
        DefView::Static(keys) => Ok(
            if 0 <= idx < keys.len() {
                Some(keys[idx])
            } else {
                None
            },
        ),
        DefView::TimeWindow(g) => match grid_page(g, grid_end(g, now), idx, 1) {
            Ok(v) => Ok(
                if v.len() > 0 {
                    Some(v[0])
                } else {
                    None
                },
            ),
            Err(e) => Err(e),
        },
        _ => Ok(None),
    }
}

/// The fault of a dimension that has fewer keys than it counts.
pub open spec fn missing_key(name: Seq<char>, idx: int) -> FaultView {
    (
        FaultKind::Definition,
        "dimension '"@ + name + "' has no key at index "@ + decimal(idx as nat),
    )
}

/// The values of the combination number `k` of a list of dimensions, added to
/// those in `acc`.
pub open spec fn pick(
    dims: Seq<(Seq<char>, DefView)>,
    now: int,
    k: int,
    acc: Map<Seq<char>, Seq<Seq<char>>>,
) -> Result<Map<Seq<char>, Seq<Seq<char>>>, FaultView>
    decreases dims.len(),
{
    if dims.len() == 0 {
        Ok(acc)
    } else {
        let n = dims_count(dims.drop_first(), now) as int;
        match nth_key(dims[0].1, now, k / n) {
            Err(e) => Err(e),
            Ok(None) => Err(missing_key(dims[0].0, k / n)),
            Ok(Some(s)) => pick(dims.drop_first(), now, k % n, acc.insert(dims[0].0, seq![s])),
        }
    }
}

/// The combinations number `from` to `to` of a list of dimensions.
pub open spec fn pick_range(dims: Seq<(Seq<char>, DefView)>, now: int, from: int, to: int) -> Result<
    Seq<KeyView>,
    FaultView,
>
    decreases to - from,
{
    if to <= from {
        Ok(Seq::empty())
    } else {
        match pick_range(dims, now, from, to - 1) {
            Err(e) => Err(e),
            Ok(v) => match pick(dims, now, to - 1, Map::empty()) {
                Ok(m) => Ok(v.push(KeyView::Multi(m))),
                Err(e) => Err(e),
            },
        }
    }
}

/// A fault in a range of combinations is the fault of every longer range.
proof fn lemma_pick_range_prefix(
    dims: Seq<(Seq<char>, DefView)>,
    now: int,
    from: int,
    mid: int,
    to: int,
)
    requires
        from <= mid <= to,
        pick_range(dims, now, from, mid) is Err,
    ensures
        pick_range(dims, now, from, to) == pick_range(dims, now, from, mid),
    decreases to - mid,
{
    if mid < to {
        lemma_pick_range_prefix(dims, now, from, mid, to - 1);
    }
}

/// Where a page of combinations ends.
pub open spec fn page_end(total: int, offset: int, limit: int) -> int {
    at_most(at_most(usize::MAX as int, offset + limit), at_most(usize::MAX as int, total))
}

/// The keys of a scheme from number `offset` on, at most `limit` of them.
pub open spec fn window_keys(d: DefView, now: int, offset: int, limit: int) -> Result<
    Seq<KeyView>,
    FaultView,
> {
    match d {
        DefView::Static(keys) => Ok(single_views(page(keys, offset, limit))),
        DefView::TimeWindow(g) => match grid_page(g, grid_end(g, now), offset, limit) {
            Ok(ks) => Ok(single_views(ks)),
            Err(e) => Err(e),
        },
        DefView::Multi(dims) => pick_range(
            dims,
            now,
            offset,
            page_end(dims_count(dims, now) as int, offset, limit),
        ),
        DefView::Dynamic(_) => Err(crate::partitions::definition::dynamic_keys_fault()),
    }
}

/// The texts of a list that hold `query`.
pub open spec fn matches_of(v: Seq<Seq<char>>, query: Seq<char>) -> Seq<Seq<char>>
    decreases v.len(),
{
    if v.len() == 0 {
        v
    } else {
        let w = matches_of(v.drop_last(), query);
        if occurs_in(query, v.last()) {
            w.push(v.last())
        } else {
            w
        }
    }
}

/// The keys of a single-dimension scheme that can be searched; others have none.
pub open spec fn searchable_keys(d: DefView, now: int) -> Result<Seq<Seq<char>>, FaultView> {
    match d {
        DefView::Static(keys) => Ok(keys),
        DefView::TimeWindow(g) => grid_keys(g, grid_end(g, now)),
        _ => Ok(Seq::empty()),
    }
}

fn copy_key_page(keys: &Vec<String>, offset: usize, limit: usize) -> (r: Vec<PyPartitionKey>)
    ensures
        keys_view(r@) == single_views(page(texts(keys@), offset as int, limit as int)),
        forall|i: int| 0 <= i < r@.len() ==> (#[trigger] r@[i]).wf(),
{
    let n: usize = keys.len();
    let from: usize = if offset < n {
        offset
    } else {
        n
    };
    let to: usize = if limit < n - from {
        from + limit
    } else {
        n
    };
    let mut out: Vec<PyPartitionKey> = Vec::new();
    let mut i: usize = from;
    let ghost p = page(texts(keys@), offset as int, limit as int);
    while i < to
        invariant
            n == keys@.len(),
            from <= i <= to,
            to <= n,
            out@.len() == i - from,
            p == texts(keys@).subrange(from as int, to as int),
            forall|j: int| 0 <= j < out@.len() ==> (#[trigger] out@[j]).wf(),
            forall|j: int| 0 <= j < out@.len() ==> (#[trigger] out@[j])@ == single_views(p)[j],
        decreases to - i,
    {
        out.push(PyPartitionKey::of(keys[i].clone()));
        i += 1;
    }
    proof {
        lemma_keys_view(out@);
        assert(keys_view(out@) =~= single_views(p));
    }
    out
}

impl PartitionsDefinition {
    /// A definition that stands for the same.
    pub fn copy(&self) -> (r: Self)
        requires
            self.wf(),
        ensures
            r@ == self@,
            r.wf(),
        decreases self,
    {
        match self {
            PartitionsDefinition::Static { keys } => PartitionsDefinition::Static {
                keys: keys.copy(),
            },
            PartitionsDefinition::TimeWindow { grid } => PartitionsDefinition::TimeWindow {
                grid: grid.copy(),
            },
            PartitionsDefinition::Multi { dimensions } => {
                proof {
                    lemma_dims_of(dimensions@);
                }
                let mut out: Vec<(String, PartitionsDefinition)> = Vec::new();
                let mut i: usize = 0;
                while i < dimensions.len()
                    invariant
                        self == (PartitionsDefinition::Multi { dimensions: *dimensions }),
                        i <= dimensions@.len(),
                        out@.len() == i,
                        forall|j: int|
                            0 <= j < dimensions@.len() ==> def_wf((#[trigger] dimensions@[j]).1),
                        forall|j: int| 0 <= j < i ==> def_wf((#[trigger] out@[j]).1),
                        forall|j: int|
                            0 <= j < i ==> (#[trigger] out@[j]).0@ == dimensions@[j].0@
                                && out@[j].1@ == dimensions@[j].1@,
                    decreases dimensions@.len() - i,
                {
                    proof {
                        lemma_dim_decreases(*self, i as int);
                    }
                    out.push((dimensions[i].0.clone(), dimensions[i].1.copy()));
                    i += 1;
                }
                proof {
                    lemma_dims_of(out@);
                    assert(dims_of(out@) =~= dims_of(dimensions@));
                }
                PartitionsDefinition::Multi { dimensions: out }
            },
            PartitionsDefinition::Dynamic { name } => PartitionsDefinition::Dynamic {
                name: name.clone(),
            },
        }
    }

    /// The definition with every time grid clamped to end at `cap`.
    fn capped_at(&self, cap: Moment) -> (r: Self)
        requires
            self.wf(),
            cap.wf(),
        ensures
            r@ == capped(self@, cap.at()),
            r.wf(),
        decreases self,
    {
        match self {
            PartitionsDefinition::TimeWindow { grid } => {
                let end = match grid.end {
                    Some(e) => e.earlier(cap),
                    None => cap,
                };
                let g = grid.copy();
                PartitionsDefinition::TimeWindow {
                    grid: TimeGrid {
                        cron_schedule: g.cron_schedule,
                        interval_seconds: g.interval_seconds,
                        start: g.start,
                        end: Some(end),
                        fmt: g.fmt,
                    },
                }
            },
            PartitionsDefinition::Multi { dimensions } => {
                proof {
                    lemma_dims_of(dimensions@);
                }
                let ghost dims = dims_of(dimensions@);
                let mut out: Vec<(String, PartitionsDefinition)> = Vec::new();
                let mut i: usize = 0;
                proof {
                    assert(dims.take(0) =~= Seq::empty());
                }
                while i < dimensions.len()
                    invariant
                        cap.wf(),
                        self == (PartitionsDefinition::Multi { dimensions: *dimensions }),
                        dims == dims_of(dimensions@),
                        dims.len() == dimensions@.len(),
                        forall|j: int|
                            0 <= j < dimensions@.len() ==> #[trigger] dims[j] == (
                                dimensions@[j].0@,
                                def_view(dimensions@[j].1),
                            ),
                        forall|j: int|
                            0 <= j < dimensions@.len() ==> def_wf((#[trigger] dimensions@[j]).1),
                        i <= dimensions@.len(),
                        out@.len() == i,
                        forall|j: int| 0 <= j < i ==> def_wf((#[trigger] out@[j]).1),
                        dims_of(out@) == capped_dims(dims.take(i as int), cap.at()),
                    decreases dimensions@.len() - i,
                {
                    proof {
                        lemma_dim_decreases(*self, i as int);
                    }
                    let ghost prev = out@;
                    out.push((dimensions[i].0.clone(), dimensions[i].1.capped_at(cap)));
                    proof {
                        assert(out@.drop_last() =~= prev);
                        assert(dims.take(i + 1).drop_last() =~= dims.take(i as int));
                        assert(dims.take(i + 1).last() == dims[i as int]);
                    }
                    i += 1;
                }
                proof {
                    assert(dims.take(i as int) =~= dims);
                    lemma_dims_of(out@);
                }
                PartitionsDefinition::Multi { dimensions: out }
            },
            _ => self.copy(),
        }
    }

    /// Like `get_partition_keys` but clamps every TimeWindow grid's effective end
    /// to `cap`.
    pub fn get_partition_keys_capped(&self, cap: Moment) -> (r: Result<Vec<PyPartitionKey>, Fault>)
        requires
            self.wf(),
            cap.wf(),
        ensures
            match r {
                Ok(v) => {
                    &&& all_keys(capped(self@, cap.at()), cap.at()) == Ok::<
                        Seq<KeyView>,
                        FaultView,
                    >(keys_view(v@))
                    &&& forall|i: int| 0 <= i < v@.len() ==> (#[trigger] v@[i]).wf()
                },
                Err(e) => all_keys(capped(self@, cap.at()), cap.at()) == Err::<
                    Seq<KeyView>,
                    FaultView,
                >(e@),
            },
    {
        self.capped_at(cap).get_partition_keys_at(cap)
    }

    /// Single-dimension variant of `get_partition_keys_capped`.
    pub fn enumerate_single_dim_keys_capped(&self, cap: Moment) -> (r: Result<Vec<String>, Fault>)
        requires
            self.wf(),
            cap.wf(),
        ensures
            match r {
                Ok(v) => single_keys(capped(self@, cap.at()), cap.at()) == Ok::<
                    Seq<Seq<char>>,
                    FaultView,
                >(texts(v@)),
                Err(e) => single_keys(capped(self@, cap.at()), cap.at()) == Err::<
                    Seq<Seq<char>>,
                    FaultView,
                >(e@),
            },
    {
        self.capped_at(cap).enumerate_single_dim_keys_at(cap)
    }

    /// Total partitions where open time grids end at `now`.
    pub fn partition_count_at(&self, now: Moment) -> (r: usize)
        requires
            self.wf(),
            now.wf(),
        ensures
            r == at_most(usize::MAX as int, key_count(self@, now.at()) as int),
        decreases self,
    {
        match self {
            PartitionsDefinition::Static { keys } => keys.len(),
            PartitionsDefinition::TimeWindow { grid } => grid.count(grid.end_or(now)),
            PartitionsDefinition::Multi { dimensions } => {
                let ghost dims = dims_of(dimensions@);
                proof {
                    lemma_dims_of(dimensions@);
                    assert(dims.take(0) =~= Seq::empty());
                }
                let mut total: usize = 1;
                let mut i: usize = 0;
                while i < dimensions.len()
                    invariant
                        now.wf(),
                        self == (PartitionsDefinition::Multi { dimensions: *dimensions }),
                        dims == dims_of(dimensions@),
                        dims.len() == dimensions@.len(),
                        forall|j: int|
                            0 <= j < dimensions@.len() ==> #[trigger] dims[j] == (
                                dimensions@[j].0@,
                                def_view(dimensions@[j].1),
                            ),
                        forall|j: int|
                            0 <= j < dimensions@.len() ==> def_wf((#[trigger] dimensions@[j]).1),
                        i <= dimensions@.len(),
                        total == at_most(
                            usize::MAX as int,
                            dims_count(dims.take(i as int), now.at()) as int,
                        ),
                    decreases dimensions@.len() - i,
                {
                    proof {
                        lemma_dim_decreases(*self, i as int);
                        assert(dims.take(i + 1).drop_last() =~= dims.take(i as int));
                        assert(dims.take(i + 1).last() == dims[i as int]);
                        lemma_capped_product(
                            dims_count(dims.take(i as int), now.at()) as int,
                            key_count(dims[i as int].1, now.at()) as int,
                        );
                    }
                    total = capped_product(total, dimensions[i].1.partition_count_at(now));
                    i += 1;
                }
                proof {
                    assert(dims.take(i as int) =~= dims);
                }
                total
            },
            PartitionsDefinition::Dynamic { .. } => 0,
        }
    }

    /// Total partitions, as cheaply as the kind allows. Open time grids end at the
    /// present moment.
    pub fn partition_count(&self) -> (r: usize)
        requires
            self.wf(),
        ensures
            exists|now: Moment|
                now.wf() && r == at_most(
                    usize::MAX as int,
                    #[trigger] key_count(self@, now.at()) as int,
                ),
    {
        let now = local_now();
        self.partition_count_at(now)
    }

    /// The `idx`-th key (in definition order) of a single-dimension definition.
    fn nth_single_dim_key(&self, now: Moment, idx: usize) -> (r: Result<Option<String>, Fault>)
        requires
            self.wf(),
            now.wf(),
        ensures
            match r {
                Ok(Some(s)) => nth_key(self@, now.at(), idx as int) == Ok::<
                    Option<Seq<char>>,
                    FaultView,
                >(Some(s@)),
                Ok(None) => nth_key(self@, now.at(), idx as int) == Ok::<
                    Option<Seq<char>>,
                    FaultView,
                >(None),
                Err(e) => nth_key(self@, now.at(), idx as int) == Err::<
                    Option<Seq<char>>,
                    FaultView,
                >(e@),
            },
    {
        match self {
            PartitionsDefinition::Static { keys } => match keys.get_at(idx) {
                Some(k) => Ok(Some(k.clone())),
                None => Ok(None),
            },
            PartitionsDefinition::TimeWindow { grid } => {
                let ticks = grid.ticks(grid.end_or(now), idx, 1)?;
                let keys = format_moments(&ticks, grid.fmt.as_str())?;
                if keys.len() > 0 {
                    proof {
                        assert(texts(keys@)[0] == keys@[0]@);
                    }
                    Ok(Some(keys[0].clone()))
                } else {
                    Ok(None)
                }
            },
            _ => Ok(None),
        }
    }

    /// The key of the combination number `k`, where `strides` counts, for each
    /// dimension, the combinations of the dimensions behind it.
    fn pick_key(
        &self,
        dimensions: &Vec<(String, PartitionsDefinition)>,
        strides: &Vec<usize>,
        now: Moment,
        k: usize,
    ) -> (r: Result<PyPartitionKey, Fault>)
        requires
            now.wf(),
            forall|j: int| 0 <= j < dimensions@.len() ==> def_wf((#[trigger] dimensions@[j]).1),
            strides@.len() == dimensions@.len(),
            forall|j: int|
                0 <= j < dimensions@.len() ==> #[trigger] strides@[j] == at_most(
                    usize::MAX as int,
                    dims_count(dims_of(dimensions@).skip(j + 1), now.at()) as int,
                ),
            k < usize::MAX,
            k < dims_count(dims_of(dimensions@), now.at()),
        ensures
            match r {
                Ok(key) => key.wf() && key@ is Multi && pick(
                    dims_of(dimensions@),
                    now.at(),
                    k as int,
                    Map::empty(),
                ) == Ok::<Map<Seq<char>, Seq<Seq<char>>>, FaultView>(key@->Multi_0),
                Err(e) => pick(dims_of(dimensions@), now.at(), k as int, Map::empty()) == Err::<
                    Map<Seq<char>, Seq<Seq<char>>>,
                    FaultView,
                >(e@),
            },
    {
        let ghost dims = dims_of(dimensions@);
        let mut rem: usize = k;
        let mut combo: NameMap<Vec<String>> = NameMap::new();
        let mut i: usize = 0;
        proof {
            lemma_dims_of(dimensions@);
            assert(dims.skip(0) =~= dims);
            assert(dims_view(combo@) =~= Map::<Seq<char>, Seq<Seq<char>>>::empty());
        }
        while i < dimensions.len()
            invariant
                now.wf(),
                dims == dims_of(dimensions@),
                dims.len() == dimensions@.len(),
                forall|j: int|
                    0 <= j < dimensions@.len() ==> #[trigger] dims[j] == (
                        dimensions@[j].0@,
                        def_view(dimensions@[j].1),
                    ),
                forall|j: int| 0 <= j < dimensions@.len() ==> def_wf((#[trigger] dimensions@[j]).1),
                strides@.len() == dimensions@.len(),
                forall|j: int|
                    0 <= j < dimensions@.len() ==> #[trigger] strides@[j] == at_most(
                        usize::MAX as int,
                        dims_count(dims.skip(j + 1), now.at()) as int,
                    ),
                i <= dimensions@.len(),
                combo.wf(),
                rem < usize::MAX,
                rem < dims_count(dims.skip(i as int), now.at()),
                pick(dims, now.at(), k as int, Map::empty()) == pick(
                    dims.skip(i as int),
                    now.at(),
                    rem as int,
                    dims_view(combo@),
                ),
            decreases dimensions@.len() - i,
        {
            let ghost here = dims.skip(i as int);
            let ghost n = dims_count(here.drop_first(), now.at()) as int;
            let ghost c = key_count(here[0].1, now.at()) as int;
            proof {
                assert(here.drop_first() =~= dims.skip(i + 1));
                lemma_dims_count_front(here, now.at());
                assert(n > 0) by (nonlinear_arith)
                    requires
                        0 <= rem < c * n,
                        n >= 0,
                        c >= 0,
                ;
                assert(here[0] == dims[i as int]);
                assert(strides@[i as int] == at_most(usize::MAX as int, n));
            }
            let stride: usize = strides[i];
            let idx: usize = rem / stride;
            let next: usize = rem % stride;
            proof {
                if n > usize::MAX as int {
                    assert(rem as int / n == 0 && rem as int % n == rem as int) by (nonlinear_arith)
                        requires
                            0 <= rem < n,
                    ;
                    assert(rem as int / stride as int == 0 && rem as int % stride as int
                        == rem as int) by (nonlinear_arith)
                        requires
                            0 <= rem < stride,
                    ;
                }
                assert(idx == rem as int / n);
                assert(next == rem as int % n);
            }
            match dimensions[i].1.nth_single_dim_key(now, idx)? {
                Some(key) => {
                    let mut one: Vec<String> = Vec::new();
                    let ghost kv = key@;
                    one.push(key);
                    let ghost before = combo@;
                    let ghost ov = one;
                    combo.insert(dimensions[i].0.clone(), one);
                    proof {
                        assert(texts(ov@) =~= seq![kv]);
                        assert(dims_view(combo@) =~= dims_view(before).insert(
                            dims[i as int].0,
                            seq![kv],
                        ));
                    }
                },
                None => {
                    return Err(
                        Fault::definition(
                            say4(
                                "dimension '",
                                dimensions[i].0.as_str(),
                                "' has no key at index ",
                                decimal_text(idx as u64).as_str(),
                            ),
                        ),
                    );
                },
            }
            rem = next;
            i += 1;
        }
        proof {
            assert(dims.skip(i as int) =~= Seq::empty());
        }
        Ok(PyPartitionKey::Multi { keys: combo })
    }

    /// A window `[offset, offset+limit)` of keys without materializing the full
    /// set, where open time grids end at `now`.
    pub fn get_partition_keys_window_at(&self, now: Moment, offset: usize, limit: usize) -> (r:
        Result<Vec<PyPartitionKey>, Fault>)
        requires
            self.wf(),
            now.wf(),
        ensures
            match r {
                Ok(v) => {
                    &&& window_keys(self@, now.at(), offset as int, limit as int) == Ok::<
                        Seq<KeyView>,
                        FaultView,
                    >(keys_view(v@))
                    &&& forall|i: int| 0 <= i < v@.len() ==> (#[trigger] v@[i]).wf()
                },
                Err(e) => window_keys(self@, now.at(), offset as int, limit as int) == Err::<
                    Seq<KeyView>,
                    FaultView,
                >(e@),
            },
    {
        match self {
            PartitionsDefinition::Static { keys } => Ok(copy_key_page(&keys.iter(), offset, limit)),
            PartitionsDefinition::TimeWindow { grid } => {
                let ticks = grid.ticks(grid.end_or(now), offset, limit)?;
                let keys = format_moments(&ticks, grid.fmt.as_str())?;
                let n: usize = keys.len();
                proof {
                    assert(page(texts(keys@), 0, n as int) =~= texts(keys@));
                }
                Ok(copy_key_page(&keys, 0, n))
            },
            PartitionsDefinition::Multi { dimensions } => {
                let ghost dims = dims_of(dimensions@);
                proof {
                    lemma_dims_of(dimensions@);
                }
                let n: usize = dimensions.len();
                let total: usize = self.partition_count_at(now);
                let reach: usize = if limit < usize::MAX - offset {
                    offset + limit
                } else {
                    usize::MAX
                };
                let end: usize = if reach < total {
                    reach
                } else {
                    total
                };
                proof {
                    assert(end == page_end(
                        dims_count(dims, now.at()) as int,
                        offset as int,
                        limit as int,
                    ));
                }
                let mut out: Vec<PyPartitionKey> = Vec::new();
                proof {
                    assert(keys_view(out@) =~= Seq::empty());
                }
                if offset >= end {
                    return Ok(out);
                }
                let mut back: Vec<usize> = Vec::new();
                let mut stride: usize = 1;
                let mut i: usize = n;
                proof {
                    assert(dims.skip(n as int) =~= Seq::empty());
                }
                while i > 0
                    invariant
                        now.wf(),
                        n == dimensions@.len(),
                        dims == dims_of(dimensions@),
                        dims.len() == n,
                        forall|j: int|
                            0 <= j < dimensions@.len() ==> #[trigger] dims[j] == (
                                dimensions@[j].0@,
                                def_view(dimensions@[j].1),
                            ),
                        forall|j: int|
                            0 <= j < dimensions@.len() ==> def_wf((#[trigger] dimensions@[j]).1),
                        i <= n,
                        stride == at_most(
                            usize::MAX as int,
                            dims_count(dims.skip(i as int), now.at()) as int,
                        ),
                        back@.len() == n - i,
                        forall|j: int|
                            0 <= j < back@.len() ==> #[trigger] back@[j] == at_most(
                                usize::MAX as int,
                                dims_count(dims.skip(n - j), now.at()) as int,
                            ),
                    decreases i,
                {
                    back.push(stride);
                    i -= 1;
                    proof {
                        let here = dims.skip(i as int);
                        assert(here.drop_first() =~= dims.skip(i + 1));
                        assert(here[0] == dims[i as int]);
                        lemma_dims_count_front(here, now.at());
                        lemma_capped_product(
                            key_count(here[0].1, now.at()) as int,
                            dims_count(here.drop_first(), now.at()) as int,
                        );
                    }
                    stride = capped_product(dimensions[i].1.partition_count_at(now), stride);
                }
                let mut strides: Vec<usize> = Vec::new();
                let mut a: usize = 0;
                while a < n
                    invariant
                        n == dimensions@.len(),
                        back@.len() == n,
                        forall|j: int|
                            0 <= j < back@.len() ==> #[trigger] back@[j] == at_most(
                                usize::MAX as int,
                                dims_count(dims.skip(n - j), now.at()) as int,
                            ),
                        a <= n,
                        strides@.len() == a,
                        forall|j: int|
                            0 <= j < a ==> #[trigger] strides@[j] == at_most(
                                usize::MAX as int,
                                dims_count(dims.skip(j + 1), now.at()) as int,
                            ),
                    decreases n - a,
                {
                    proof {
                        assert(back@[n - 1 - a] == at_most(
                            usize::MAX as int,
                            dims_count(dims.skip(n - (n - 1 - a)), now.at()) as int,
                        ));
                    }
                    strides.push(back[n - 1 - a]);
                    a += 1;
                }
                let mut k: usize = offset;
                while k < end
                    invariant
                        now.wf(),
                        dims == dims_of(dimensions@),
                        forall|j: int|
                            0 <= j < dimensions@.len() ==> def_wf((#[trigger] dimensions@[j]).1),
                        strides@.len() == dimensions@.len(),
                        forall|j: int|
                            0 <= j < dimensions@.len() ==> #[trigger] strides@[j] == at_most(
                                usize::MAX as int,
                                dims_count(dims.skip(j + 1), now.at()) as int,
                            ),
                        offset <= k <= end,
                        end <= dims_count(dims, now.at()),
                        self@ == DefView::Multi(dims),
                        end == page_end(
                            dims_count(dims, now.at()) as int,
                            offset as int,
                            limit as int,
                        ),
                        pick_range(dims, now.at(), offset as int, k as int) == Ok::<
                            Seq<KeyView>,
                            FaultView,
                        >(keys_view(out@)),
                        forall|j: int| 0 <= j < out@.len() ==> (#[trigger] out@[j]).wf(),
                    decreases end - k,
                {
                    match self.pick_key(dimensions, &strides, now, k) {
                        Ok(key) => {
                            let ghost prev = out@;
                            let ghost kv = key;
                            out.push(key);
                            proof {
                                assert(out@.drop_last() =~= prev);
                                assert(keys_view(out@) == keys_view(prev).push(kv@));
                            }
                        },
                        Err(e) => {
                            proof {
                                lemma_pick_range_prefix(
                                    dims,
                                    now.at(),
                                    offset as int,
                                    k + 1,
                                    end as int,
                                );
                            }
                            return Err(e);
                        },
                    }
                    k += 1;
                }
                Ok(out)
            },
            PartitionsDefinition::Dynamic { .. } => self.get_partition_keys_at(now),
        }
    }

    /// A window `[offset, offset+limit)` of keys without materializing the full
    /// set. Open time grids end at the present moment.
    pub fn get_partition_keys_window(&self, offset: usize, limit: usize) -> (r: Result<
        Vec<PyPartitionKey>,
        Fault,
    >)
        requires
            self.wf(),
        ensures
            exists|now: Moment|
                now.wf() && match r {
                    Ok(v) => #[trigger] window_keys(self@, now.at(), offset as int, limit as int)
                        == Ok::<Seq<KeyView>, FaultView>(keys_view(v@)),
                    Err(e) => window_keys(self@, now.at(), offset as int, limit as int) == Err::<
                        Seq<KeyView>,
                        FaultView,
                    >(e@),
                },
    {
        let now = local_now();
        self.get_partition_keys_window_at(now, offset, limit)
    }

    /// `(page, match_count)` for single-dim keys containing `query`, where open
    /// time grids end at `now`.
    pub fn get_partition_keys_filtered_at(
        &self,
        now: Moment,
        query: &str,
        offset: usize,
        limit: usize,
    ) -> (r: Result<(Vec<String>, usize), Fault>)
        requires
            self.wf(),
            now.wf(),
        ensures
            match r {
                Ok((v, total)) => searchable_keys(self@, now.at()) matches Ok(ks) && texts(v@)
                    == page(matches_of(ks, query@), offset as int, limit as int) && total
                    == matches_of(ks, query@).len(),
                Err(e) => searchable_keys(self@, now.at()) == Err::<Seq<Seq<char>>, FaultView>(e@),
            },
    {
        let keys: Vec<String> = match self {
            PartitionsDefinition::Static { keys } => keys.iter(),
            PartitionsDefinition::TimeWindow { grid } => {
                let end = grid.end_or(now);
                let ticks = grid.ticks(end, 0, usize::MAX)?;
                proof {
                    let ts = grid_ticks(grid@, end.at())->Ok_0;
                    assert(page(ts, 0, usize::MAX as int) =~= ts);
                }
                format_moments(&ticks, grid.fmt.as_str())?
            },
            _ => {
                let none: Vec<String> = Vec::new();
                proof {
                    assert(texts(none@) =~= Seq::empty());
                }
                none
            },
        };
        let ghost ks = texts(keys@);
        let mut found: Vec<String> = Vec::new();
        let mut total: usize = 0;
        let mut i: usize = 0;
        proof {
            assert(ks.take(0) =~= Seq::empty());
            assert(texts(found@) =~= page(Seq::<Seq<char>>::empty(), offset as int, limit as int));
        }
        while i < keys.len()
            invariant
                ks == texts(keys@),
                i <= keys@.len(),
                total <= i,
                total == matches_of(ks.take(i as int), query@).len(),
                texts(found@) == page(
                    matches_of(ks.take(i as int), query@),
                    offset as int,
                    limit as int,
                ),
            decreases keys@.len() - i,
        {
            let ghost w = matches_of(ks.take(i as int), query@);
            proof {
                assert(ks.take(i + 1).drop_last() =~= ks.take(i as int));
                assert(ks.take(i + 1).last() == keys@[i as int]@);
            }
            if contains_text(keys[i].as_str(), query) {
                if total >= offset && found.len() < limit {
                    let ghost prev = texts(found@);
                    found.push(keys[i].clone());
                    proof {
                        assert(texts(found@) =~= prev.push(keys@[i as int]@));
                        assert(texts(found@) =~= page(
                            w.push(keys@[i as int]@),
                            offset as int,
                            limit as int,
                        ));
                    }
                } else {
                    proof {
                        assert(page(w, offset as int, limit as int) =~= page(
                            w.push(keys@[i as int]@),
                            offset as int,
                            limit as int,
                        ));
                    }
                }
                total += 1;
            }
            i += 1;
        }
        proof {
            assert(ks.take(i as int) =~= ks);
        }
        Ok((found, total))
    }

    /// `(page, match_count)` for single-dim keys containing `query`. Open time
    /// grids end at the present moment.
    pub fn get_partition_keys_filtered(&self, query: &str, offset: usize, limit: usize) -> (r:
        Result<(Vec<String>, usize), Fault>)
        requires
            self.wf(),
        ensures
            exists|now: Moment|
                now.wf() && match r {
                    Ok((v, total)) => #[trigger] searchable_keys(self@, now.at()) matches Ok(ks)
                        && texts(v@) == page(matches_of(ks, query@), offset as int, limit as int)
                        && total == matches_of(ks, query@).len(),
                    Err(e) => searchable_keys(self@, now.at()) == Err::<
                        Seq<Seq<char>>,
                        FaultView,
                    >(e@),
                },
    {
        let now = local_now();
        self.get_partition_keys_filtered_at(now, query, offset, limit)
    }
}

} // verus!
