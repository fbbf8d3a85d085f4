//! Which keys a partition scheme accepts, where a key stands in it, and the time
//! window that a key names.
use vstd::prelude::*;
use vstd::string::*;
use crate::errors::{Fault, FaultKind, FaultView};
use crate::moment::{
    cron_next, cron_ticks, cron_ticks_before, format_moment, formatted, local_now, next_cron_tick,
    places, stepped, walk_before, CronFault, Moment,
};
use crate::names::lemma_pairs_len;
use crate::partitions::definition::{
    def_view, def_wf, dims_of, lemma_dims_of, DefView, PartitionsDefinition,
};
use crate::partitions::grid::{
    bad_format, bad_schedule, grid_end, grid_ticks, holdable, page, GridView, TimeGrid,
};
use crate::partitions::key::{
    dims_view, key_view, key_wf, keys_view, lemma_keys_view, lemma_member_decreases, KeyView,
    PyPartitionKey,
};
use crate::partitions::readings::Readings;
use crate::text::{same_text, say4, say5, texts};

verus! {

/// The verdict of a list of checks made one after the other: that of the first
/// check that does not accept.
pub open spec fn verdict(v: Seq<Result<bool, FaultView>>) -> Result<bool, FaultView>
    decreases v.len(),
{
    if v.len() == 0 {
        Ok(true)
    } else {
        match verdict(v.drop_last()) {
            Ok(true) => v.last(),
            other => other,
        }
    }
}

/// What the first checks of a list decide stays decided.
pub proof fn lemma_verdict_prefix(v: Seq<Result<bool, FaultView>>, n: int)
    requires
        0 <= n <= v.len(),
        verdict(v.take(n)) != Ok::<bool, FaultView>(true),
    ensures
        verdict(v) == verdict(v.take(n)),
    decreases v.len(),
{
    if n < v.len() {
        assert(v.drop_last().take(n) =~= v.take(n));
        lemma_verdict_prefix(v.drop_last(), n);
    } else {
        assert(v.take(n) =~= v);
    }
}

/// A list of checks accepts exactly when each of them does.
pub proof fn lemma_verdict_all(v: Seq<Result<bool, FaultView>>)
    ensures
        verdict(v) == Ok::<bool, FaultView>(true) <==> forall|i: int|
            0 <= i < v.len() ==> #[trigger] v[i] == Ok::<bool, FaultView>(true),
    decreases v.len(),
{
    if v.len() > 0 {
        let w = v.drop_last();
        lemma_verdict_all(w);
        if verdict(v) == Ok::<bool, FaultView>(true) {
            assert forall|i: int| 0 <= i < v.len() implies #[trigger] v[i] == Ok::<
                bool,
                FaultView,
            >(true) by {
                if i < w.len() {
                    assert(w[i] == Ok::<bool, FaultView>(true));
                }
            }
        }
        if forall|i: int| 0 <= i < v.len() ==> #[trigger] v[i] == Ok::<bool, FaultView>(true) {
            assert forall|i: int| 0 <= i < w.len() implies #[trigger] w[i] == Ok::<
                bool,
                FaultView,
            >(true) by {
                assert(v[i] == Ok::<bool, FaultView>(true));
            }
            assert(v[v.len() - 1] == Ok::<bool, FaultView>(true));
        }
    }
}

/// Where the first place of a walk that reads as `key` stands, from number `i` on.
pub open spec fn find_shown(ts: Seq<int>, fmt: Seq<char>, key: Seq<char>, i: int) -> Result<
    Option<int>,
    FaultView,
>
    decreases ts.len() - i,
{
    if i < 0 || i >= ts.len() {
        Ok(None)
    } else {
        match formatted(ts[i], fmt) {
            None => Err(bad_format(fmt)),
            Some(s) => if s == key {
                Ok(Some(i))
            } else {
                find_shown(ts, fmt, key, i + 1)
            },
        }
    }
}

/// Finds the first of a list of moments that reads as `key`.
fn find_shown_moment(v: &Vec<Moment>, fmt: &str, key: &str) -> (r: Result<Option<usize>, Fault>)
    requires
        forall|i: int| 0 <= i < v@.len() ==> (#[trigger] v@[i]).wf(),
    ensures
        match r {
            Ok(Some(n)) => n < v@.len() && find_shown(places(v@), fmt@, key@, 0) == Ok::<
                Option<int>,
                FaultView,
            >(Some(n as int)),
            Ok(None) => find_shown(places(v@), fmt@, key@, 0) == Ok::<Option<int>, FaultView>(None),
            Err(e) => find_shown(places(v@), fmt@, key@, 0) == Err::<Option<int>, FaultView>(e@),
        },
{
    let mut i: usize = 0;
    while i < v.len()
        invariant
            forall|j: int| 0 <= j < v@.len() ==> (#[trigger] v@[j]).wf(),
            i <= v@.len(),
            find_shown(places(v@), fmt@, key@, 0) == find_shown(places(v@), fmt@, key@, i as int),
        decreases v@.len() - i,
    {
        proof {
            assert(places(v@)[i as int] == v@[i as int].at());
        }
        match format_moment(v[i], fmt) {
            Some(s) => {
                if same_text(s.as_str(), key) {
                    return Ok(Some(i));
                }
            },
            None => {
                return Err(Fault::definition(crate::text::say3("format '", fmt, "' cannot be used")));
            },
        }
        i += 1;
    }
    Ok(None)
}

/// Twenty-six hours, in nanoseconds.
pub const NEARBY_NS: i128 = 93_600_000_000_000;

/// Twenty-six hours before a place, or `start` where that is later.
pub open spec fn nearby_start(t: int, start: int) -> int {
    match stepped(t, -NEARBY_NS) {
        Some(a) => if a < start {
            start
        } else {
            a
        },
        None => start,
    }
}

/// Twenty-six hours after a place, or `end` where that is earlier.
pub open spec fn nearby_end(t: int, end: int) -> int {
    match stepped(t, NEARBY_NS as int) {
        Some(b) => if b < end {
            b
        } else {
            end
        },
        None => end,
    }
}

/// The occurrences of a schedule within twenty-six hours of a place, and within
/// `[start, end)`.
pub open spec fn nearby_ticks(expr: Seq<char>, t: int, start: int, end: int) -> Result<
    Seq<int>,
    FaultView,
> {
    match cron_ticks(expr, nearby_start(t, start)) {
        Ok(ts) => Ok(holdable(walk_before(ts, nearby_end(t, end)))),
        Err(why) => Err(bad_schedule(expr, why)),
    }
}

/// Whether a text names a window of a grid that ends at `end`: it reads as a
/// moment in `[start, end)` that lies on the interval, or that the schedule shows
/// as this text.
pub open spec fn window_valid(
    g: GridView,
    end: int,
    key: Seq<char>,
    reading: Result<int, Seq<char>>,
) -> Result<bool, FaultView> {
    match reading {
        Err(_) => Ok(false),
        Ok(t) => if t < g.start || t >= end {
            Ok(false)
        } else {
            match g.interval {
                Some(iv) => Ok(iv.ns > 0 && (t - g.start) % iv.ns == 0),
                None => match g.cron {
                    Some(expr) => match nearby_ticks(expr, t, g.start, end) {
                        Err(e) => Err(e),
                        Ok(ts) => match find_shown(ts, g.fmt, key, 0) {
                            Err(e) => Err(e),
                            Ok(found) => Ok(found is Some),
                        },
                    },
                    None => Ok(true),
                },
            }
        },
    }
}

/// The check of each text of a list against a grid.
pub open spec fn window_checks(
    g: GridView,
    now: int,
    keys: Seq<Seq<char>>,
    readings: Readings,
) -> Seq<Result<bool, FaultView>> {
    keys.map_values(
        |k: Seq<char>| window_valid(g, grid_end(g, now), k, readings.of(k, g.fmt)),
    )
}

/// Whether a list of texts is a key of a single-dimension scheme.
pub open spec fn single_valid(
    d: DefView,
    now: int,
    keys: Seq<Seq<char>>,
    readings: Readings,
) -> Result<bool, FaultView> {
    match d {
        DefView::Static(valid) => Ok(
            keys.len() > 0 && forall|i: int|
                0 <= i < keys.len() ==> valid.contains(#[trigger] keys[i]),
        ),
        DefView::TimeWindow(g) => if keys.len() == 0 {
            Ok(false)
        } else {
            verdict(window_checks(g, now, keys, readings))
        },
        DefView::Dynamic(_) => Ok(keys.len() > 0),
        DefView::Multi(_) => Ok(false),
    }
}

/// The check of each value of a dimension, one by one.
pub open spec fn value_checks(d: DefView, now: int, vals: Seq<Seq<char>>, readings: Readings) -> Seq<
    Result<bool, FaultView>,
> {
    vals.map_values(|v: Seq<char>| single_valid(d, now, seq![v], readings))
}

/// Whether a key gives a dimension values, all of them keys of the dimension.
pub open spec fn dim_valid(
    dim: (Seq<char>, DefView),
    now: int,
    m: Map<Seq<char>, Seq<Seq<char>>>,
    readings: Readings,
) -> Result<bool, FaultView> {
    if !m.dom().contains(dim.0) || m[dim.0].len() == 0 {
        Ok(false)
    } else {
        verdict(value_checks(dim.1, now, m[dim.0], readings))
    }
}

/// The check of each dimension of a scheme.
pub open spec fn dim_checks(
    dims: Seq<(Seq<char>, DefView)>,
    now: int,
    m: Map<Seq<char>, Seq<Seq<char>>>,
    readings: Readings,
) -> Seq<Result<bool, FaultView>> {
    dims.map_values(|d: (Seq<char>, DefView)| dim_valid(d, now, m, readings))
}

/// Whether a key is a key of a scheme.
pub open spec fn key_valid(d: DefView, now: int, k: KeyView, readings: Readings) -> Result<
    bool,
    FaultView,
>
    decreases k,
{
    match k {
        KeyView::Single(keys) => single_valid(d, now, keys, readings),
        KeyView::Multi(m) => match d {
            DefView::Multi(dims) => if m.dom().len() != dims.len() {
                Ok(false)
            } else {
                verdict(dim_checks(dims, now, m, readings))
            },
            _ => Ok(false),
        },
        KeyView::Batch(keys) => if keys.len() == 0 {
            Ok(false)
        } else {
            batch_valid(d, now, keys, readings)
        },
    }
}

/// The verdict on the members of a batch, one after the other.
pub open spec fn batch_valid(d: DefView, now: int, keys: Seq<KeyView>, readings: Readings) -> Result<
    bool,
    FaultView,
>
    decreases keys,
{
    if keys.len() == 0 {
        Ok(true)
    } else {
        match batch_valid(d, now, keys.drop_last(), readings) {
            Ok(true) => key_valid(d, now, keys.last(), readings),
            other => other,
        }
    }
}

proof fn lemma_batch_prefix(d: DefView, now: int, keys: Seq<KeyView>, readings: Readings, n: int)
    requires
        0 <= n <= keys.len(),
        batch_valid(d, now, keys.take(n), readings) != Ok::<bool, FaultView>(true),
    ensures
        batch_valid(d, now, keys, readings) == batch_valid(d, now, keys.take(n), readings),
    decreases keys.len(),
{
    if n < keys.len() {
        assert(keys.drop_last().take(n) =~= keys.take(n));
        lemma_batch_prefix(d, now, keys.drop_last(), readings, n);
    } else {
        assert(keys.take(n) =~= keys);
    }
}

/// Whether a result is the one that a specification gives.
pub open spec fn says_bool(r: Result<bool, Fault>, spec: Result<bool, FaultView>) -> bool {
    match r {
        Ok(b) => spec == Ok::<bool, FaultView>(b),
        Err(e) => spec == Err::<bool, FaultView>(e@),
    }
}

impl TimeGrid {
    /// Whether a text names a window of the grid.
    fn window_valid_at(&self, end: Moment, key: &str, readings: &Readings) -> (r: Result<
        bool,
        Fault,
    >)
        requires
            self.wf(),
            end.wf(),
            readings.wf(),
        ensures
            says_bool(
                r,
                window_valid(self@, end.at(), key@, readings.of(key@, self.fmt@)),
            ),
    {
        let t = match readings.read(key, self.fmt.as_str()) {
            Ok(t) => t,
            Err(_) => {
                return Ok(false);
            },
        };
        if t.before(self.start) || !t.before(end) {
            return Ok(false);
        }
        match &self.interval_seconds {
            Some(iv) => {
                if iv.ns <= 0 {
                    return Ok(false);
                }
                let past: i128 = t.total() - self.start.total();
                Ok(past % iv.ns == 0)
            },
            None => match &self.cron_schedule {
                Some(expr) => {
                    let from = match t.step(-NEARBY_NS) {
                        Some(a) => a.later(self.start),
                        None => self.start,
                    };
                    let to = match t.step(NEARBY_NS) {
                        Some(b) => b.earlier(end),
                        None => end,
                    };
                    match cron_ticks_before(expr.as_str(), from, to, usize::MAX) {
                        Ok(v) => {
                            proof {
                                let ts = cron_ticks(expr@, from.at())->Ok_0;
                                crate::moment::lemma_walk_before(ts, to.at());
                                assert(places(v@) =~= holdable(walk_before(ts, to.at())));
                            }
                            match find_shown_moment(&v, self.fmt.as_str(), key) {
                                Ok(found) => Ok(found.is_some()),
                                Err(e) => Err(e),
                            }
                        },
                        Err(why) => Err(
                            Fault::definition(
                                say4(
                                    "Invalid cron expression '",
                                    expr.as_str(),
                                    "': ",
                                    why.as_str(),
                                ),
                            ),
                        ),
                    }
                },
                None => Ok(true),
            },
        }
    }
}

impl PartitionsDefinition {
    /// Whether a list of texts is a key of a single-dimension definition.
    fn single_valid_at(&self, keys: &Vec<String>, now: Moment, readings: &Readings) -> (r: Result<
        bool,
        Fault,
    >)
        requires
            self.wf(),
            now.wf(),
            readings.wf(),
        ensures
            says_bool(r, single_valid(self@, now.at(), texts(keys@), *readings)),
    {
        let ghost ks = texts(keys@);
        match self {
            PartitionsDefinition::Static { keys: valid } => {
                if keys.len() == 0 {
                    return Ok(false);
                }
                let mut i: usize = 0;
                while i < keys.len()
                    invariant
                        ks == texts(keys@),
                        keys@.len() > 0,
                        self@ == DefView::Static(valid@),
                        i <= keys@.len(),
                        forall|j: int| 0 <= j < i ==> valid@.contains(#[trigger] ks[j]),
                    decreases keys@.len() - i,
                {
                    proof {
                        assert(ks[i as int] == keys@[i as int]@);
                    }
                    if !valid.contains(keys[i].as_str()) {
                        return Ok(false);
                    }
                    i += 1;
                }
                Ok(true)
            },
            PartitionsDefinition::TimeWindow { grid } => {
                if keys.len() == 0 {
                    return Ok(false);
                }
                let end = grid.end_or(now);
                let ghost checks = window_checks(grid@, now.at(), ks, *readings);
                let mut i: usize = 0;
                proof {
                    assert(checks.take(0) =~= Seq::empty());
                }
                while i < keys.len()
                    invariant
                        ks == texts(keys@),
                        keys@.len() > 0,
                        grid.wf(),
                        end.wf(),
                        readings.wf(),
                        end.at() == grid_end(grid@, now.at()),
                        self@ == DefView::TimeWindow(grid@),
                        checks == window_checks(grid@, now.at(), ks, *readings),
                        i <= keys@.len(),
                        verdict(checks.take(i as int)) == Ok::<bool, FaultView>(true),
                    decreases keys@.len() - i,
                {
                    proof {
                        assert(checks.take(i + 1).drop_last() =~= checks.take(i as int));
                        assert(checks.take(i + 1).last() == checks[i as int]);
                        assert(ks[i as int] == keys@[i as int]@);
                    }
                    let r = grid.window_valid_at(end, keys[i].as_str(), readings);
                    match r {
                        Ok(true) => {},
                        _ => {
                            proof {
                                lemma_verdict_prefix(checks, i + 1);
                            }
                            return r;
                        },
                    }
                    i += 1;
                }
                proof {
                    assert(checks.take(i as int) =~= checks);
                }
                Ok(true)
            },
            PartitionsDefinition::Dynamic { .. } => Ok(keys.len() > 0),
            PartitionsDefinition::Multi { .. } => Ok(false),
        }
    }

    /// Whether each of a list of values is a key of the definition.
    fn values_valid_at(&self, vals: &Vec<String>, now: Moment, readings: &Readings) -> (r: Result<
        bool,
        Fault,
    >)
        requires
            self.wf(),
            now.wf(),
            readings.wf(),
        ensures
            says_bool(r, verdict(value_checks(self@, now.at(), texts(vals@), *readings))),
    {
        let ghost checks = value_checks(self@, now.at(), texts(vals@), *readings);
        let mut i: usize = 0;
        proof {
            assert(checks.take(0) =~= Seq::empty());
        }
        while i < vals.len()
            invariant
                self.wf(),
                now.wf(),
                readings.wf(),
                checks == value_checks(self@, now.at(), texts(vals@), *readings),
                i <= vals@.len(),
                verdict(checks.take(i as int)) == Ok::<bool, FaultView>(true),
            decreases vals@.len() - i,
        {
            let mut one: Vec<String> = Vec::new();
            one.push(vals[i].clone());
            proof {
                assert(texts(one@) =~= seq![texts(vals@)[i as int]]);
                assert(checks.take(i + 1).drop_last() =~= checks.take(i as int));
                assert(checks.take(i + 1).last() == checks[i as int]);
            }
            let r = self.single_valid_at(&one, now, readings);
            match r {
                Ok(true) => {},
                _ => {
                    proof {
                        lemma_verdict_prefix(checks, i + 1);
                    }
                    return r;
                },
            }
            i += 1;
        }
        proof {
            assert(checks.take(i as int) =~= checks);
        }
        Ok(true)
    }

    /// Check if a partition key is valid for this definition, where open time
    /// grids end at `now`.
    pub fn validate_partition_key_at(
        &self,
        key: &PyPartitionKey,
        now: Moment,
        readings: &Readings,
    ) -> (r: Result<bool, Fault>)
        requires
            self.wf(),
            key.wf(),
            now.wf(),
            readings.wf(),
        ensures
            says_bool(r, key_valid(self@, now.at(), key@, *readings)),
        decreases key,
    {
        match key {
            PyPartitionKey::Single { key: keys } => self.single_valid_at(keys, now, readings),
            PyPartitionKey::Multi { keys } => match self {
                PartitionsDefinition::Multi { dimensions } => {
                    let ghost dims = dims_of(dimensions@);
                    let ghost m = dims_view(keys@);
                    proof {
                        lemma_dims_of(dimensions@);
                        lemma_pairs_len(keys.entries@);
                        assert(m.dom() =~= keys@.dom());
                    }
                    if keys.len() != dimensions.len() {
                        return Ok(false);
                    }
                    let ghost checks = dim_checks(dims, now.at(), m, *readings);
                    let mut i: usize = 0;
                    proof {
                        assert(checks.take(0) =~= Seq::empty());
                    }
                    while i < dimensions.len()
                        invariant
                            now.wf(),
                            readings.wf(),
                            m == dims_view(keys@),
                            m.dom() == keys@.dom(),
                            m.dom().len() == dims.len(),
                            key@ == KeyView::Multi(m),
                            self@ == DefView::Multi(dims),
                            dims.len() == dimensions@.len(),
                            forall|j: int|
                                0 <= j < dimensions@.len() ==> #[trigger] dims[j] == (
                                    dimensions@[j].0@,
                                    def_view(dimensions@[j].1),
                                ),
                            forall|j: int|
                                0 <= j < dimensions@.len() ==> def_wf(
                                    (#[trigger] dimensions@[j]).1,
                                ),
                            checks == dim_checks(dims, now.at(), m, *readings),
                            i <= dimensions@.len(),
                            verdict(checks.take(i as int)) == Ok::<bool, FaultView>(true),
                        decreases dimensions@.len() - i,
                    {
                        proof {
                            assert(checks.take(i + 1).drop_last() =~= checks.take(i as int));
                            assert(checks.take(i + 1).last() == checks[i as int]);
                            assert(checks[i as int] == dim_valid(
                                dims[i as int],
                                now.at(),
                                m,
                                *readings,
                            ));
                        }
                        let r = match keys.get(dimensions[i].0.as_str()) {
                            Some(vals) => {
                                proof {
                                    assert(m[dims[i as int].0] == texts(vals@));
                                }
                                if vals.len() == 0 {
                                    Ok(false)
                                } else {
                                    dimensions[i].1.values_valid_at(vals, now, readings)
                                }
                            },
                            None => Ok(false),
                        };
                        match r {
                            Ok(true) => {},
                            _ => {
                                proof {
                                    lemma_verdict_prefix(checks, i + 1);
                                }
                                return r;
                            },
                        }
                        i += 1;
                    }
                    proof {
                        assert(checks.take(i as int) =~= checks);
                    }
                    Ok(true)
                },
                _ => Ok(false),
            },
            PyPartitionKey::Batch { members } => {
                if members.len() == 0 {
                    return Ok(false);
                }
                let ghost ks = keys_view(members@);
                proof {
                    lemma_keys_view(members@);
                    assert(ks.take(0) =~= Seq::empty());
                }
                let mut i: usize = 0;
                while i < members.len()
                    invariant
                        self.wf(),
                        now.wf(),
                        readings.wf(),
                        key == (PyPartitionKey::Batch { members: *members }),
                        ks == keys_view(members@),
                        ks.len() == members@.len(),
                        members@.len() > 0,
                        forall|j: int| 0 <= j < members@.len() ==> key_wf(#[trigger] members@[j]),
                        forall|j: int|
                            0 <= j < members@.len() ==> #[trigger] ks[j] == key_view(members@[j]),
                        i <= members@.len(),
                        batch_valid(self@, now.at(), ks.take(i as int), *readings) == Ok::<
                            bool,
                            FaultView,
                        >(true),
                    decreases members@.len() - i,
                {
                    proof {
                        lemma_member_decreases(*key, i as int);
                        assert(ks.take(i + 1).drop_last() =~= ks.take(i as int));
                        assert(ks.take(i + 1).last() == ks[i as int]);
                    }
                    let r = self.validate_partition_key_at(&members[i], now, readings);
                    match r {
                        Ok(true) => {},
                        _ => {
                            proof {
                                lemma_batch_prefix(self@, now.at(), ks, *readings, i + 1);
                            }
                            return r;
                        },
                    }
                    i += 1;
                }
                proof {
                    assert(ks.take(i as int) =~= ks);
                }
                Ok(true)
            },
        }
    }

    /// Check if a partition key is valid for this definition. Open time grids end
    /// at the present moment.
    pub fn validate_partition_key(&self, key: &PyPartitionKey, readings: &Readings) -> (r: Result<
        bool,
        Fault,
    >)
        requires
            self.wf(),
            key.wf(),
            readings.wf(),
        ensures
            exists|now: Moment|
                now.wf() && says_bool(r, #[trigger] key_valid(self@, now.at(), key@, *readings)),
    {
        let now = local_now();
        self.validate_partition_key_at(key, now, readings)
    }

    /// Index of `key` in single-dim order, where open time grids end at `now`.
    pub fn single_dim_key_index_at(&self, key: &str, now: Moment, readings: &Readings) -> (r:
        Result<Option<usize>, Fault>)
        requires
            self.wf(),
            now.wf(),
            readings.wf(),
        ensures
            match r {
                Ok(found) => key_index(self@, now.at(), key@, *readings) == Ok::<
                    Option<int>,
                    FaultView,
                >(
                    match found {
                        Some(i) => Some(i as int),
                        None => None,
                    },
                ),
                Err(e) => key_index(self@, now.at(), key@, *readings) == Err::<
                    Option<int>,
                    FaultView,
                >(e@),
            },
    {
        match self {
            PartitionsDefinition::Static { keys } => {
                let r = keys.get_index_of(key);
                proof {
                    if let Some(i) = r {
                        assert(keys@.contains(key@));
                        lemma_place_in(keys@, key@, i as int);
                    }
                }
                Ok(r)
            },
            PartitionsDefinition::TimeWindow { grid } => {
                let end = grid.end_or(now);
                match &grid.interval_seconds {
                    Some(iv) => {
                        if iv.ns <= 0 {
                            return Ok(None);
                        }
                        let t = match readings.read(key, grid.fmt.as_str()) {
                            Ok(t) => t,
                            Err(_) => {
                                return Ok(None);
                            },
                        };
                        if t.before(grid.start) || !t.before(end) {
                            return Ok(None);
                        }
                        let past: i128 = t.total() - grid.start.total();
                        if past % iv.ns != 0 {
                            return Ok(None);
                        }
                        let n: i128 = past / iv.ns;
                        proof {
                            assert(0 <= past as int / iv.ns as int) by (nonlinear_arith)
                                requires
                                    past >= 0,
                                    iv.ns > 0,
                            ;
                        }
                        if n > usize::MAX as i128 {
                            return Ok(None);
                        }
                        Ok(Some(n as usize))
                    },
                    None => match &grid.cron_schedule {
                        Some(_) => {
                            let ticks = grid.ticks(end, 0, usize::MAX)?;
                            proof {
                                let ts = grid_ticks(grid@, end.at())->Ok_0;
                                assert(page(ts, 0, usize::MAX as int) =~= ts);
                            }
                            find_shown_moment(&ticks, grid.fmt.as_str(), key)
                        },
                        None => Ok(None),
                    },
                }
            },
            _ => Ok(None),
        }
    }

    /// Index of `key` in single-dim order — the "jump to key" target. Open time
    /// grids end at the present moment.
    pub fn single_dim_key_index(&self, key: &str, readings: &Readings) -> (r: Result<
        Option<usize>,
        Fault,
    >)
        requires
            self.wf(),
            readings.wf(),
        ensures
            exists|now: Moment|
                now.wf() && match r {
                    Ok(found) => #[trigger] key_index(self@, now.at(), key@, *readings) == Ok::<
                        Option<int>,
                        FaultView,
                    >(
                        match found {
                            Some(i) => Some(i as int),
                            None => None,
                        },
                    ),
                    Err(e) => key_index(self@, now.at(), key@, *readings) == Err::<
                        Option<int>,
                        FaultView,
                    >(e@),
                },
    {
        let now = local_now();
        self.single_dim_key_index_at(key, now, readings)
    }

    /// Compute the time window (start, end) for a given partition key string.
    pub fn compute_time_window(&self, key: &str, readings: &Readings) -> (r: Result<
        Option<(Moment, Moment)>,
        Fault,
    >)
        requires
            self.wf(),
            readings.wf(),
        ensures
            match r {
                Ok(Some((a, b))) => a.wf() && b.wf() && time_window_of(self@, key@, *readings)
                    == Ok::<Option<(int, int)>, FaultView>(Some((a.at(), b.at()))),
                Ok(None) => time_window_of(self@, key@, *readings) == Ok::<
                    Option<(int, int)>,
                    FaultView,
                >(None),
                Err(e) => time_window_of(self@, key@, *readings) == Err::<
                    Option<(int, int)>,
                    FaultView,
                >(e@),
            },
    {
        match self {
            PartitionsDefinition::TimeWindow { grid } => {
                let from = match readings.read(key, grid.fmt.as_str()) {
                    Ok(t) => t,
                    Err(e) => {
                        let mut msg = say5(
                            "Cannot parse partition key '",
                            key,
                            "' with format '",
                            grid.fmt.as_str(),
                            "': ",
                        );
                        msg.append(e.as_str());
                        return Err(Fault::definition(msg));
                    },
                };
                match &grid.interval_seconds {
                    Some(iv) => match from.step(iv.ns) {
                        Some(to) => Ok(Some((from, to))),
                        None => Err(
                            Fault::definition(
                                "the window ends outside the calendar".to_owned(),
                            ),
                        ),
                    },
                    None => match &grid.cron_schedule {
                        Some(expr) => match next_cron_tick(expr.as_str(), from) {
                            Ok(to) => Ok(Some((from, to))),
                            Err(CronFault::Schedule(why)) => Err(
                                Fault::definition(
                                    say4(
                                        "Invalid cron expression '",
                                        expr.as_str(),
                                        "': ",
                                        why.as_str(),
                                    ),
                                ),
                            ),
                            Err(CronFault::Search(why)) => {
                                let mut msg = "Failed to find next cron tick: ".to_owned();
                                msg.append(why.as_str());
                                Err(Fault::definition(msg))
                            },
                        },
                        None => Ok(None),
                    },
                }
            },
            _ => Ok(None),
        }
    }

    /// The definition's wall-clock grid, for shifting and aligning keys.
    pub fn time_grid(&self) -> (r: Option<TimeGrid>)
        requires
            self.wf(),
        ensures
            match r {
                Some(g) => self@ == DefView::TimeWindow(g@) && g.wf(),
                None => !(self@ is TimeWindow),
            },
    {
        match self {
            PartitionsDefinition::TimeWindow { grid } => Some(grid.copy()),
            _ => None,
        }
    }
}

/// The place of a text in a list, where it occurs.
pub open spec fn place_in(keys: Seq<Seq<char>>, key: Seq<char>) -> Option<int> {
    keys.index_of_first(key)
}

/// In a list without repetitions a text stands in one place.
pub proof fn lemma_place_in(keys: Seq<Seq<char>>, key: Seq<char>, i: int)
    requires
        crate::partitions::key_set::no_repeats(keys),
        0 <= i < keys.len(),
        keys[i] == key,
    ensures
        place_in(keys, key) == Some(i),
{
    keys.index_of_first_ensures(key);
    let j = keys.index_of_first(key)->0;
    if j < i {
        assert(keys[j] != keys[i]);
    }
}

/// Where a key stands in the order of a single-dimension scheme.
pub open spec fn key_index(d: DefView, now: int, key: Seq<char>, readings: Readings) -> Result<
    Option<int>,
    FaultView,
> {
    match d {
        DefView::Static(keys) => Ok(
            if keys.contains(key) {
                place_in(keys, key)
            } else {
                None
            },
        ),
        DefView::TimeWindow(g) => match g.interval {
            Some(iv) => Ok(
                match readings.of(key, g.fmt) {
                    Ok(t) => if iv.ns > 0 && g.start <= t < grid_end(g, now) && (t - g.start)
                        % iv.ns == 0 && (t - g.start) / iv.ns <= usize::MAX {
                        Some((t - g.start) / iv.ns)
                    } else {
                        None
                    },
                    Err(_) => None,
                },
            ),
            None => match g.cron {
                Some(_) => match grid_ticks(g, grid_end(g, now)) {
                    Ok(ts) => find_shown(ts, g.fmt, key, 0),
                    Err(e) => Err(e),
                },
                None => Ok(None),
            },
        },
        _ => Ok(None),
    }
}

/// The window that a key names: from the moment that it reads as to the next
/// window start.
pub open spec fn time_window_of(d: DefView, key: Seq<char>, readings: Readings) -> Result<
    Option<(int, int)>,
    FaultView,
> {
    match d {
        DefView::TimeWindow(g) => match readings.of(key, g.fmt) {
            Err(why) => Err(
                (
                    FaultKind::Definition,
                    "Cannot parse partition key '"@ + key + "' with format '"@ + g.fmt + "': "@
                        + why,
                ),
            ),
            Ok(t) => match g.interval {
                Some(iv) => match stepped(t, iv.ns) {
                    Some(to) => Ok(Some((t, to))),
                    None => Err(
                        (FaultKind::Definition, "the window ends outside the calendar"@),
                    ),
                },
                None => match g.cron {
                    Some(expr) => match cron_next(expr, t) {
                        Ok(to) => Ok(Some((t, to))),
                        Err((true, why)) => Err(bad_schedule(expr, why)),
                        Err((false, why)) => Err(
                            (FaultKind::Definition, "Failed to find next cron tick: "@ + why),
                        ),
                    },
                    None => Ok(None),
                },
            },
        },
        _ => Ok(None),
    }
}

} // verus!
