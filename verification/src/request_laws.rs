//! What requests from outside are read as, and what is answered about partitions.
use vstd::prelude::*;
use crate::code_location::{
    dimension_overviews, is_overview, keys_page, label_of, overview_count, overview_keys,
    run_ids_of, target_of, wire_dims, wire_key_of, wire_selection, wire_selections,
    PartitionDefInfo, TickRequest, WireKey, WireSelection, WireStrategy, KEYS_WINDOW,
};
use crate::errors::FaultView;
use crate::executor::kind::Executor;
use crate::executor::plan::NodeInfo;
use crate::partitions::backfill_strategy::PyBackfillStrategy;
use crate::partitions::definition::{dimension_of, key_count, DefView};
use crate::partitions::grid::{grid_end, grid_keys, page};
use crate::partitions::key::KeyView;
use crate::partitions::key_range::SelView;
use crate::partitions::key_set::no_repeats;
use crate::partitions::listing::{matches_of, searchable_keys, window_keys};
use crate::partitions::members::display_of;
use crate::requests::{wire_keys, wire_strategy, wire_tags};
use crate::text::{decimal, occurs_in, texts};

verus! {

/// Each run that is asked for has an id, in order: its key, or `pending` where it has
/// none. Other requests have none.
pub proof fn lemma_run_ids(s: Seq<TickRequest>, r: TickRequest)
    ensures
        run_ids_of(Seq::empty()).len() == 0,
        r matches TickRequest::Run(Some(k)) ==> run_ids_of(s.push(r)) == run_ids_of(s).push(k@),
        r matches TickRequest::Run(None) ==> run_ids_of(s.push(r)) == run_ids_of(s).push(
            "pending"@,
        ),
        r is Other ==> run_ids_of(s.push(r)) == run_ids_of(s),
{
    assert(s.push(r).drop_last() =~= s);
}

/// The scheme that a request is about: that of the asset, or of the named dimension of it.
/// An asset that is unknown or not partitioned, and a dimension that it has not, is refused.
pub proof fn lemma_target(
    nodes: Map<Seq<char>, NodeInfo>,
    asset: Seq<char>,
    dimension: Seq<char>,
)
    ensures
        ({
            let r = target_of(nodes, asset, dimension);
            let partitioned = nodes.dom().contains(asset) && nodes[asset].partitions_def is Some;
            let d = nodes[asset].partitions_def->0@;
            &&& r is Ok <==> partitioned && (dimension.len() == 0 || dimension_of(
                d,
                dimension,
            ) is Some)
            &&& partitioned && dimension.len() == 0 ==> r->Ok_0 == d
            &&& r is Ok && dimension.len() > 0 ==> r->Ok_0 == dimension_of(d, dimension)->0
        }),
{
}

/// Of a list of texts those stay that hold the query, in their order.
pub proof fn lemma_matches(v: Seq<Seq<char>>, query: Seq<char>)
    ensures
        matches_of(v, query) == v.filter(|k: Seq<char>| occurs_in(query, k)),
    decreases v.len(),
{
    reveal(Seq::filter);
    if v.len() > 0 {
        lemma_matches(v.drop_last(), query);
    }
}

/// A text holds another where it is what stands before it, the other, and what stands
/// behind it.
pub proof fn lemma_occurs(needle: Seq<char>, hay: Seq<char>)
    ensures
        occurs_in(needle, hay) <==> exists|a: Seq<char>, b: Seq<char>| #[trigger]
            (a + needle + b) == hay,
{
    if occurs_in(needle, hay) {
        let i = choose|i: int|
            0 <= i <= hay.len() - needle.len() && #[trigger] hay.subrange(i, i + needle.len())
                == needle;
        let a = hay.take(i);
        let b = hay.skip(i + needle.len());
        assert(a + needle + b =~= hay);
    }
    if exists|a: Seq<char>, b: Seq<char>| #[trigger] (a + needle + b) == hay {
        let (a, b) = choose|a: Seq<char>, b: Seq<char>| #[trigger] (a + needle + b) == hay;
        let i = a.len() as int;
        assert(hay.subrange(i, i + needle.len()) =~= needle);
    }
}

/// A scheme of fixed keys or of windows can be searched, by its keys; another has none to
/// search.
pub proof fn lemma_searchable(d: DefView, now: int)
    ensures
        d matches DefView::Static(keys) ==> searchable_keys(d, now) == Ok::<
            Seq<Seq<char>>,
            FaultView,
        >(keys),
        d matches DefView::TimeWindow(g) ==> searchable_keys(d, now) == grid_keys(
            g,
            grid_end(g, now),
        ),
        d is Multi || d is Dynamic ==> searchable_keys(d, now) is Ok && searchable_keys(
            d,
            now,
        )->Ok_0.len() == 0,
{
}

/// A page of keys. Without a query it is a page of all of them, with their number; with one
/// a page of those that hold it, with the number of these.
pub proof fn lemma_keys_page(d: DefView, now: int, query: Seq<char>, offset: int, limit: int)
    ensures
        ({
            let r = keys_page(d, now, query, offset, limit);
            let all = window_keys(d, now, offset, limit);
            let found = searchable_keys(d, now);
            &&& query.len() == 0 ==> {
                &&& r is Ok <==> all is Ok
                &&& r is Ok ==> {
                    &&& r->Ok_0.0.len() == all->Ok_0.len()
                    &&& forall|i: int|
                        0 <= i < all->Ok_0.len() ==> #[trigger] r->Ok_0.0[i] == display_of(
                            all->Ok_0[i],
                        )
                    &&& key_count(d, now) <= usize::MAX ==> r->Ok_0.1 == key_count(d, now)
                    &&& key_count(d, now) > usize::MAX ==> r->Ok_0.1 == usize::MAX
                }
            }
            &&& query.len() > 0 ==> {
                &&& r is Ok <==> found is Ok
                &&& r is Ok ==> r->Ok_0.0 == page(matches_of(found->Ok_0, query), offset, limit)
                    && r->Ok_0.1 == matches_of(found->Ok_0, query).len()
            }
        }),
{
}

/// The keys of an overview are the first of the scheme, in their display form, up to a
/// fixed number; where they cannot be listed there are none.
pub proof fn lemma_overview_keys(d: DefView, now: int)
    ensures
        ({
            let first = window_keys(d, now, 0, KEYS_WINDOW as int);
            &&& first is Err ==> overview_keys(d, now).len() == 0
            &&& first is Ok ==> overview_keys(d, now).len() == first->Ok_0.len() && forall|i: int|
                0 <= i < first->Ok_0.len() ==> #[trigger] overview_keys(d, now)[i] == display_of(
                    first->Ok_0[i],
                )
            &&& key_count(d, now) <= usize::MAX ==> overview_count(d, now) == key_count(d, now)
        }),
{
}

/// Each dimension is listed by itself, under its name, and says whether keys were left out.
pub proof fn lemma_dimension_overviews(dims: Seq<(Seq<char>, DefView)>, now: int)
    ensures
        dimension_overviews(dims, now).len() == dims.len(),
        forall|i: int|
            0 <= i < dims.len() ==> {
                let v = #[trigger] dimension_overviews(dims, now)[i];
                &&& v.name == dims[i].0
                &&& v.keys == overview_keys(dims[i].1, now)
                &&& v.total == overview_count(dims[i].1, now)
                &&& v.truncated <==> v.keys.len() < v.total
            },
{
}

/// An overview lists keys for a scheme of one dimension, dimensions for one of several, and
/// the name of a dynamic one. It says that keys were left out where there are more than it
/// lists.
pub proof fn lemma_overview(r: PartitionDefInfo, d: DefView, now: int)
    requires
        is_overview(r, d, now),
    ensures
        r.total_count == overview_count(d, now),
        d is Static || d is TimeWindow ==> texts(r.keys@) == overview_keys(d, now)
            && r.dimensions@.len() == 0 && (r.keys_truncated <==> r.keys@.len() < r.total_count),
        d matches DefView::Multi(dims) ==> r.keys@.len() == 0 && r.dimensions@.len() == dims.len()
            && (r.keys_truncated <==> exists|i: int|
            0 <= i < dims.len() && (#[trigger] dimension_overviews(dims, now)[i]).truncated),
        d matches DefView::Dynamic(name) ==> r.keys@.len() == 0 && r.dimensions@.len() == 0
            && !r.keys_truncated && r.dynamic_name@ == name,
        !(d is Dynamic) ==> r.dynamic_name@.len() == 0,
{
    assert(texts(r.keys@).len() == r.keys@.len());
    if let DefView::Multi(dims) = d {
        assert(crate::code_location::dimensions_view(r.dimensions@).len() == r.dimensions@.len());
        assert(dimension_overviews(dims, now).len() == dims.len());
    }
}

/// The label of an executor.
pub proof fn lemma_label(e: Option<Executor>)
    ensures
        e is None ==> label_of(e).len() == 0,
        e matches Some(Executor::InProcess) ==> label_of(e) == "InProcess"@,
        e matches Some(Executor::Parallel { max_workers, .. }) ==> label_of(e) == "Parallel("@
            + decimal(max_workers as nat) + ")"@,
        e matches Some(Executor::Kubernetes { worker_image: Some(i), .. }) ==> label_of(e)
            == "Kubernetes("@ + i@ + ")"@,
        e matches Some(Executor::Kubernetes { worker_image: None, .. }) ==> label_of(e)
            == "Kubernetes("@ + "auto"@ + ")"@,
{
}

/// A dimension of a key that comes from outside has the values that were given for it; the
/// last that were given for a name count.
pub proof fn lemma_wire_dims(s: Seq<(String, Vec<String>)>, name: String, v: Vec<String>)
    ensures
        wire_dims(Seq::empty()).dom().len() == 0,
        wire_dims(s.push((name, v))) == wire_dims(s).insert(name@, texts(v@)),
{
    assert(s.push((name, v)).drop_last() =~= s);
}

/// A key from outside is what it says it is.
pub proof fn lemma_wire_key(k: WireKey)
    ensures
        k matches WireKey::Single(v) ==> wire_key_of(k) == KeyView::Single(texts(v@)),
        k matches WireKey::Multi(dims) ==> wire_key_of(k) == KeyView::Multi(wire_dims(dims@)),
{
}

/// Of a list of keys from outside those that are there are read, in order.
pub proof fn lemma_wire_keys(s: Seq<Option<WireKey>>)
    ensures
        wire_keys(s) == s.filter(|k: Option<WireKey>| k is Some).map_values(
            |k: Option<WireKey>| wire_key_of(k->0),
        ),
    decreases s.len(),
{
    reveal(Seq::filter);
    let p = |k: Option<WireKey>| k is Some;
    let f = |k: Option<WireKey>| wire_key_of(k->0);
    if s.len() > 0 {
        let w = s.drop_last();
        lemma_wire_keys(w);
        if p(s.last()) {
            assert(s.filter(p).map_values(f) =~= w.filter(p).map_values(f).push(f(s.last())));
        }
    } else {
        assert(s.filter(p).map_values(f) =~= Seq::empty());
    }
}

/// The last value that is given for a tag counts.
pub proof fn lemma_wire_tags(s: Seq<(String, String)>, name: String, value: String)
    ensures
        wire_tags(Seq::empty()).dom().len() == 0,
        wire_tags(s.push((name, value))) == wire_tags(s).insert(name@, value@),
{
    assert(s.push((name, value)).drop_last() =~= s);
}

/// A selection from outside: a range keeps its ends, a list of keys has each of them once.
pub proof fn lemma_wire_selection(s: WireSelection)
    ensures
        s matches WireSelection::Range(a, b) ==> wire_selection(s) == SelView::Range(a@, b@),
        s matches WireSelection::Keys(v) ==> {
            let keys = wire_selection(s)->Keys_0;
            &&& wire_selection(s) is Keys
            &&& no_repeats(keys)
            &&& forall|k: Seq<char>| keys.contains(k) <==> texts(v@).contains(k)
        },
{
    if let WireSelection::Keys(v) = s {
        crate::partitions::key_set::lemma_first_occurrences(texts(v@));
    }
}

/// The last selection that is given for a dimension counts.
pub proof fn lemma_wire_selections(
    s: Seq<(String, Option<WireSelection>)>,
    name: String,
    sel: WireSelection,
)
    ensures
        wire_selections(Seq::empty()).dom().len() == 0,
        wire_selections(s.push((name, Some(sel)))) == wire_selections(s).insert(
            name@,
            wire_selection(sel),
        ),
{
    assert(s.push((name, Some(sel))).drop_last() =~= s);
}

/// A backfill runs once for all keys only where it is asked to by that word, and once for
/// each where it is asked by any other; by dimension it keeps both lists.
pub proof fn lemma_wire_strategy(s: WireStrategy)
    ensures
        s matches WireStrategy::Shorthand(t) ==> (wire_strategy(s) is SingleRun <==> t@
            == "single_run"@) && (wire_strategy(s) is MultiRun <==> t@ != "single_run"@),
        s matches WireStrategy::PerDimension(m, n) ==> wire_strategy(s) == (
        PyBackfillStrategy::PerDimension { multi_run_dims: m, single_run_dims: n }),
{
}

} // verus!
