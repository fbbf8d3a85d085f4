//! How a code location reads the requests that start something, and answers them.
use vstd::prelude::*;
use vstd::string::*;
use crate::code_location::{
    all_selected, empty_text_to_none, empty_to_none, proto_partition_key_to_py,
    proto_partition_range_to_py, proto_strategy_to_py, wire_key_of, wire_selections, WireKey,
    WireRange, WireStrategy,
};
use crate::names::NameMap;
use crate::partitions::backfill_strategy::PyBackfillStrategy;
use crate::partitions::grid::opt_text;
use crate::partitions::key::{keys_view, KeyView, PyPartitionKey};
use crate::partitions::key_range::{sels_view, PartitionKeyRangeInner, PyPartitionKeyRange};
use crate::partitions::mapping_same::texts_map;
use crate::text::say3;

verus! {

/// A request for a backfill as it comes in. What it leaves out is empty or missing.
#[derive(Debug)]
pub struct WireBackfill {
    pub selection: Vec<String>,
    pub partition_keys: Vec<Option<WireKey>>,
    pub partition_range: Option<WireRange>,
    pub strategy: Option<WireStrategy>,
    pub failure_policy: String,
    pub max_concurrency: Option<u32>,
    pub tags: Vec<(String, String)>,
    pub dry_run: bool,
}

/// A request for a backfill.
#[derive(Debug)]
pub struct BackfillRequestData {
    pub selection: Vec<String>,
    pub partition_keys: Option<Vec<PyPartitionKey>>,
    pub partition_range: Option<PyPartitionKeyRange>,
    pub strategy: Option<PyBackfillStrategy>,
    pub failure_policy: Option<String>,
    pub max_concurrency: Option<u32>,
    pub tags: Option<NameMap<String>>,
    pub dry_run: bool,
}

/// The keys among those that a request carries; one that says nothing is left out.
pub open spec fn wire_keys(s: Seq<Option<WireKey>>) -> Seq<KeyView>
    decreases s.len(),
{
    if s.len() == 0 {
        Seq::empty()
    } else {
        match s.last() {
            Some(k) => wire_keys(s.drop_last()).push(wire_key_of(k)),
            None => wire_keys(s.drop_last()),
        }
    }
}

/// The tags that a request carries; the later of two with one name counts.
pub open spec fn wire_tags(s: Seq<(String, String)>) -> Map<Seq<char>, Seq<char>>
    decreases s.len(),
{
    if s.len() == 0 {
        Map::empty()
    } else {
        wire_tags(s.drop_last()).insert(s.last().0@, s.last().1@)
    }
}

/// Whether a range is the one that a request carries. One whose dimension lacks its
/// selection is none.
pub open spec fn reads_range(r: WireRange, out: Option<PyPartitionKeyRange>) -> bool {
    match r {
        WireRange::Single(a, b) => out == Some(
            PyPartitionKeyRange {
                inner: PartitionKeyRangeInner::Single { from_key: a, to_key: b },
            },
        ),
        WireRange::Multi(dims) => match out {
            Some(x) => {
                &&& all_selected(dims@)
                &&& x.wf()
                &&& x.inner matches PartitionKeyRangeInner::Multi { dimensions } && sels_view(
                    dimensions@,
                ) == wire_selections(dims@)
            },
            None => !all_selected(dims@),
        },
    }
}

/// The strategy that a request carries.
pub open spec fn wire_strategy(s: WireStrategy) -> PyBackfillStrategy {
    match s {
        WireStrategy::Shorthand(t) => if t@ == "single_run"@ {
            PyBackfillStrategy::SingleRun
        } else {
            PyBackfillStrategy::MultiRun
        },
        WireStrategy::PerDimension(m, n) => PyBackfillStrategy::PerDimension {
            multi_run_dims: m,
            single_run_dims: n,
        },
    }
}

fn read_keys(keys: Vec<Option<WireKey>>) -> (r: Vec<PyPartitionKey>)
    ensures
        keys_view(r@) == wire_keys(keys@),
        forall|i: int| 0 <= i < r@.len() ==> (#[trigger] r@[i]).wf(),
{
    let ghost src = keys@;
    let mut rest = keys;
    let mut out: Vec<PyPartitionKey> = Vec::new();
    let ghost mut n: int = 0;
    proof {
        assert(src.take(0) =~= Seq::empty());
        assert(src.skip(0) =~= src);
        assert(keys_view(out@) =~= Seq::empty());
    }
    while rest.len() > 0
        invariant
            0 <= n <= src.len(),
            rest@ == src.skip(n),
            keys_view(out@) == wire_keys(src.take(n)),
            forall|i: int| 0 <= i < out@.len() ==> (#[trigger] out@[i]).wf(),
        decreases rest@.len(),
    {
        let k = rest.remove(0);
        proof {
            assert(src.skip(n)[0] == src[n]);
            assert(rest@ =~= src.skip(n + 1));
            assert(src.take(n + 1).drop_last() =~= src.take(n));
            assert(src.take(n + 1).last() == src[n]);
            n = n + 1;
        }
        if let Some(w) = k {
            let key = proto_partition_key_to_py(w);
            let ghost prev = out@;
            let ghost kv = key;
            out.push(key);
            proof {
                assert(out@.drop_last() =~= prev);
                assert(out@.last() == kv);
                assert(keys_view(out@) =~= keys_view(prev).push(kv@));
            }
        }
    }
    proof {
        assert(src.take(n) =~= src);
    }
    out
}

fn read_tags(tags: Vec<(String, String)>) -> (r: NameMap<String>)
    ensures
        r.wf(),
        texts_map(r@) == wire_tags(tags@),
{
    let ghost src = tags@;
    let mut rest = tags;
    let mut out: NameMap<String> = NameMap::new();
    let ghost mut n: int = 0;
    proof {
        assert(src.take(0) =~= Seq::empty());
        assert(src.skip(0) =~= src);
        assert(texts_map(out@) =~= Map::empty());
    }
    while rest.len() > 0
        invariant
            0 <= n <= src.len(),
            rest@ == src.skip(n),
            out.wf(),
            texts_map(out@) == wire_tags(src.take(n)),
        decreases rest@.len(),
    {
        let (name, value) = rest.remove(0);
        let ghost p = (name, value);
        let ghost before = out@;
        proof {
            assert(src.skip(n)[0] == src[n]);
            assert(p == src[n]);
            assert(rest@ =~= src.skip(n + 1));
            assert(src.take(n + 1).drop_last() =~= src.take(n));
            assert(src.take(n + 1).last() == src[n]);
            n = n + 1;
        }
        out.insert(name, value);
        proof {
            assert(texts_map(out@) =~= texts_map(before).insert(p.0@, p.1@));
        }
    }
    proof {
        assert(src.take(n) =~= src);
    }
    out
}

/// Reads a request for a backfill. A list or a text that is empty is left out.
pub fn launch_backfill(req: WireBackfill) -> (r: BackfillRequestData)
    ensures
        r.selection == req.selection,
        match r.partition_keys {
            Some(v) => req.partition_keys@.len() > 0 && keys_view(v@) == wire_keys(
                req.partition_keys@,
            ),
            None => req.partition_keys@.len() == 0,
        },
        match req.partition_range {
            Some(w) => reads_range(w, r.partition_range),
            None => r.partition_range is None,
        },
        r.strategy == match req.strategy {
            Some(s) => Some(wire_strategy(s)),
            None => None,
        },
        opt_text(r.failure_policy) == if req.failure_policy@.len() == 0 {
            None
        } else {
            Some(req.failure_policy@)
        },
        r.max_concurrency == req.max_concurrency,
        match r.tags {
            Some(m) => req.tags@.len() > 0 && m.wf() && texts_map(m@) == wire_tags(req.tags@),
            None => req.tags@.len() == 0,
        },
        r.dry_run == req.dry_run,
{
    let partition_keys = match empty_to_none(req.partition_keys) {
        Some(v) => Some(read_keys(v)),
        None => None,
    };
    let partition_range = match req.partition_range {
        Some(w) => proto_partition_range_to_py(w),
        None => None,
    };
    let strategy = match req.strategy {
        Some(s) => Some(proto_strategy_to_py(s)),
        None => None,
    };
    let tags = match empty_to_none(req.tags) {
        Some(v) => Some(read_tags(v)),
        None => None,
    };
    BackfillRequestData {
        selection: req.selection,
        partition_keys,
        partition_range,
        strategy,
        failure_policy: empty_text_to_none(req.failure_policy),
        max_concurrency: req.max_concurrency,
        tags,
        dry_run: req.dry_run,
    }
}

/// The answer to a request for one thing that was handed on: its last error, where there
/// is one, else its last result.
pub fn single_outcome<T, E>(errors: Vec<E>, results: Vec<T>) -> (r: Result<T, E>)
    requires
        errors@.len() == 0 ==> results@.len() > 0,
    ensures
        match r {
            Ok(x) => errors@.len() == 0 && x == results@.last(),
            Err(e) => errors@.len() > 0 && e == errors@.last(),
        },
{
    let mut errors = errors;
    let mut results = results;
    if errors.len() > 0 {
        Err(errors.pop().unwrap())
    } else {
        Ok(results.pop().unwrap())
    }
}

/// The assets that a request materializes: those that it names, or all of them where it
/// names none.
pub fn selected_assets(selection: Vec<String>, all: Vec<String>) -> (r: Vec<String>)
    ensures
        r == if selection@.len() == 0 {
            all
        } else {
            selection
        },
{
    if selection.len() == 0 {
        all
    } else {
        selection
    }
}

/// The message of a backfill that is not known.
pub fn unknown_backfill(id: &str) -> (r: String)
    ensures
        r@ == "Backfill '"@ + id@ + "' not found"@,
{
    say3("Backfill '", id, "' not found")
}

/// Whether a schedule or a sensor runs, as it is shown.
pub fn status_label(running: bool) -> (r: &'static str)
    ensures
        r@ == if running {
            "RUNNING"@
        } else {
            "STOPPED"@
        },
{
    if running {
        "RUNNING"
    } else {
        "STOPPED"
    }
}

} // verus!
