//! What holds of the keys of a scheme: they are as many as it counts, and a window of
//! them is a page of all of them.
use vstd::prelude::*;
use crate::errors::FaultView;
use crate::moment::{at_most, formatted};
use crate::partitions::definition::{
    all_keys, all_single, capped, capped_dims, dims_count, dims_keys, first_texts, key_count,
    single_keys, single_views, DefView,
};
use crate::partitions::grid::{format_all, grid_end, grid_keys, grid_ticks, lemma_format_all, page};
use crate::partitions::key::KeyView;
use crate::partitions::listing::{
    lemma_dims_count_front, nth_key, page_end, pick, pick_range, window_keys,
};
use crate::partitions::product::{
    combo_at, combo_count, combo_keys, combos, combo_key, lemma_combo_at, lemma_combo_count,
    DimKeys,
};



verus! {

/// The texts of the keys of a scheme with one dimension are its keys, one each.
pub proof fn lemma_single_views(v: Seq<Seq<char>>)
    ensures
        all_single(single_views(v)),
        first_texts(single_views(v)) == v,
        single_views(v).len() == v.len(),
        forall|i: int|
            0 <= i < v.len() ==> #[trigger] single_views(v)[i] == KeyView::Single(seq![v[i]]),
{
    assert forall|i: int| 0 <= i < v.len() implies #[trigger] first_texts(single_views(v))[i]
        == v[i] by {
        assert(single_views(v)[i] == KeyView::Single(seq![v[i]]));
    }
    assert(first_texts(single_views(v)) =~= v);
}

/// The keys of the dimensions of a scheme, one by one.
pub proof fn lemma_dims_keys(dims: Seq<(Seq<char>, DefView)>, now: int)
    requires
        dims_keys(dims, now) is Ok,
    ensures
        dims_keys(dims, now)->Ok_0.len() == dims.len(),
        forall|i: int|
            0 <= i < dims.len() ==> {
                &&& (#[trigger] dims_keys(dims, now)->Ok_0[i]).0 == dims[i].0
                &&& single_keys(dims[i].1, now) == Ok::<Seq<Seq<char>>, FaultView>(
                    dims_keys(dims, now)->Ok_0[i].1,
                )
                &&& dims_keys(dims, now)->Ok_0[i].1.len() == key_count(dims[i].1, now)
            },
    decreases dims,
{
    if dims.len() > 0 {
        let w = dims.drop_last();
        lemma_dims_keys(w, now);
        lemma_count_is_length(dims.last().1, now);
        let v = dims_keys(dims, now)->Ok_0;
        let u = dims_keys(w, now)->Ok_0;
        assert forall|i: int| 0 <= i < dims.len() implies {
            &&& (#[trigger] v[i]).0 == dims[i].0
            &&& single_keys(dims[i].1, now) == Ok::<Seq<Seq<char>>, FaultView>(v[i].1)
            &&& v[i].1.len() == key_count(dims[i].1, now)
        } by {
            if i < w.len() {
                assert(u[i] == v[i]);
                assert(w[i] == dims[i]);
            }
        }
    }
}

proof fn lemma_counts(dims: Seq<(Seq<char>, DefView)>, v: Seq<DimKeys>, now: int)
    requires
        v.len() == dims.len(),
        forall|i: int|
            0 <= i < dims.len() ==> (#[trigger] v[i]).1.len() == key_count(dims[i].1, now),
    ensures
        combo_count(v) == dims_count(dims, now),
    decreases dims.len(),
{
    if dims.len() > 0 {
        lemma_dims_count_front(dims, now);
        let a = dims.drop_first();
        let b = v.drop_first();
        assert forall|i: int| 0 <= i < a.len() implies (#[trigger] b[i]).1.len() == key_count(
            a[i].1,
            now,
        ) by {
            assert(v[i + 1].1.len() == key_count(dims[i + 1].1, now));
        }
        lemma_counts(a, b, now);
        assert(v[0].1.len() == key_count(dims[0].1, now));
    }
}

/// A scheme has as many keys as it counts.
pub proof fn lemma_count_is_length(d: DefView, now: int)
    ensures
        all_keys(d, now) matches Ok(v) ==> v.len() == key_count(d, now),
    decreases d,
{
    match d {
        DefView::Static(_) => {},
        DefView::TimeWindow(g) => {
            if let Ok(ts) = grid_ticks(g, grid_end(g, now)) {
                lemma_format_all(ts, g.fmt);
            }
        },
        DefView::Multi(dims) => {
            if let Ok(dk) = dims_keys(dims, now) {
                lemma_dims_keys(dims, now);
                lemma_counts(dims, dk, now);
                lemma_combo_count(dk);
            }
        },
        DefView::Dynamic(_) => {},
    }
}

proof fn lemma_format_page(ts: Seq<int>, fmt: Seq<char>, a: int, b: int)
    requires
        0 <= a <= b <= ts.len(),
        format_all(ts, fmt) is Ok,
    ensures
        format_all(ts.subrange(a, b), fmt) == Ok::<Seq<Seq<char>>, FaultView>(
            format_all(ts, fmt)->Ok_0.subrange(a, b),
        ),
{
    let sub = ts.subrange(a, b);
    let v = format_all(ts, fmt)->Ok_0;
    lemma_format_all(ts, fmt);
    lemma_format_all(sub, fmt);
    match format_all(sub, fmt) {
        Ok(w) => {
            assert forall|i: int| 0 <= i < w.len() implies w[i] == v.subrange(a, b)[i] by {
                assert(formatted(sub[i], fmt) == Some(w[i]));
                assert(formatted(ts[a + i], fmt) == Some(v[a + i]));
            }
            assert(w =~= v.subrange(a, b));
        },
        Err(_) => {
            let i = choose|i: int| 0 <= i < sub.len() && formatted(#[trigger] sub[i], fmt) is None;
            assert(formatted(ts[a + i], fmt) == Some(v[a + i]));
        },
    }
}

/// The names of a list of dimensions are distinct.
pub open spec fn distinct_dims(dims: Seq<(Seq<char>, DefView)>) -> bool {
    forall|i: int, j: int|
        0 <= i < j < dims.len() ==> (#[trigger] dims[i]).0 != (#[trigger] dims[j]).0
}

/// The names of a list of dimensions with their keys are distinct.
pub open spec fn distinct_keyed(dk: Seq<DimKeys>) -> bool {
    forall|i: int, j: int|
        0 <= i < j < dk.len() ==> (#[trigger] dk[i]).0 != (#[trigger] dk[j]).0
}

/// A combination has a key for each dimension, one of those of the dimension.
pub proof fn lemma_combo_parts(dk: Seq<DimKeys>, k: int)
    requires
        0 <= k < combo_count(dk),
        distinct_keyed(dk),
    ensures
        forall|n: Seq<char>| #[trigger]
            combo_at(dk, k).dom().contains(n) <==> exists|i: int|
                0 <= i < dk.len() && (#[trigger] dk[i]).0 == n,
        forall|i: int|
            0 <= i < dk.len() ==> dk[i].1.contains(
                combo_at(dk, k)[(#[trigger] dk[i]).0],
            ),
        combo_at(dk, k).dom().finite(),
        combo_at(dk, k).dom().len() == dk.len(),
    decreases dk.len(),
{
    if dk.len() > 0 {
        let rest = dk.drop_first();
        let n = combo_count(rest) as int;
        let m = dk[0].1.len() as int;
        assert(n > 0) by (nonlinear_arith)
            requires
                0 <= k < m * n,
                m >= 0,
                n >= 0,
        ;
        assert(0 <= k / n < m && 0 <= k % n < n) by (nonlinear_arith)
            requires
                0 <= k < m * n,
                n > 0,
        ;
        assert(distinct_keyed(rest)) by {
            assert forall|i: int, j: int| 0 <= i < j < rest.len() implies (#[trigger] rest[i]).0
                != (#[trigger] rest[j]).0 by {
                assert(dk[i + 1].0 != dk[j + 1].0);
            }
        }
        lemma_combo_parts(rest, k % n);
        let c = combo_at(rest, k % n);
        let r = combo_at(dk, k);
        assert(r == c.insert(dk[0].0, dk[0].1[k / n]));
        if c.dom().contains(dk[0].0) {
            let i = choose|i: int| 0 <= i < rest.len() && (#[trigger] rest[i]).0 == dk[0].0;
            assert(dk[0].0 != dk[i + 1].0);
        }
        assert(r.dom() =~= c.dom().insert(dk[0].0));
        assert forall|name: Seq<char>| #[trigger] r.dom().contains(name) <==> exists|i: int|
            0 <= i < dk.len() && (#[trigger] dk[i]).0 == name by {
            if r.dom().contains(name) {
                if name == dk[0].0 {
                    assert(dk[0].0 == name);
                } else {
                    assert(c.dom().contains(name));
                    let i = choose|i: int| 0 <= i < rest.len() && (#[trigger] rest[i]).0 == name;
                    assert(dk[i + 1].0 == name);
                }
            }
            if exists|i: int| 0 <= i < dk.len() && (#[trigger] dk[i]).0 == name {
                let i = choose|i: int| 0 <= i < dk.len() && (#[trigger] dk[i]).0 == name;
                if i > 0 {
                    assert(rest[i - 1].0 == name);
                    assert(c.dom().contains(name));
                }
            }
        }
        assert forall|i: int| 0 <= i < dk.len() implies dk[i].1.contains(
            r[(#[trigger] dk[i]).0],
        ) by {
            if i == 0 {
                assert(dk[0].1[k / n] == r[dk[0].0]);
            } else {
                assert(dk[0].0 != dk[i].0);
                assert(rest[i - 1] == dk[i]);
                assert(rest[i - 1].1.contains(c[rest[i - 1].0]));
            }
        }
    }
}

/// Where the keys of a dimension can be listed and there are any, its key of a number
/// is the one of that number.
proof fn lemma_nth_key(d: DefView, now: int, i: int)
    requires
        single_keys(d, now) is Ok,
        0 <= i < single_keys(d, now)->Ok_0.len(),
    ensures
        nth_key(d, now, i) == Ok::<Option<Seq<char>>, FaultView>(
            Some(single_keys(d, now)->Ok_0[i]),
        ),
{
    let keys = single_keys(d, now)->Ok_0;
    match d {
        DefView::Static(ks) => {
            lemma_single_views(ks);
        },
        DefView::TimeWindow(g) => {
            let end = grid_end(g, now);
            let ks = grid_keys(g, end)->Ok_0;
            lemma_single_views(ks);
            let ts = grid_ticks(g, end)->Ok_0;
            lemma_format_all(ts, g.fmt);
            lemma_format_page(ts, g.fmt, i, i + 1);
            assert(page(ts, i, 1) =~= ts.subrange(i, i + 1));
        },
        DefView::Multi(dims) => {
            let v = all_keys(d, now)->Ok_0;
            assert(all_single(v));
            assert(v[i] is Single);
            let dk = dims_keys(dims, now)->Ok_0;
            assert(v[i] == combo_key(combos(dk)[i]));
        },
        DefView::Dynamic(_) => {},
    }
}

/// A combination as the values of a key.
pub open spec fn lifted(m: Map<Seq<char>, Seq<char>>) -> Map<Seq<char>, Seq<Seq<char>>> {
    m.map_values(|s: Seq<char>| seq![s])
}

proof fn lemma_pick(
    dims: Seq<(Seq<char>, DefView)>,
    dk: Seq<DimKeys>,
    now: int,
    k: int,
    acc: Map<Seq<char>, Seq<Seq<char>>>,
)
    requires
        dk.len() == dims.len(),
        forall|i: int|
            0 <= i < dims.len() ==> {
                &&& (#[trigger] dk[i]).0 == dims[i].0
                &&& single_keys(dims[i].1, now) == Ok::<Seq<Seq<char>>, FaultView>(dk[i].1)
                &&& dk[i].1.len() == key_count(dims[i].1, now)
            },
        distinct_keyed(dk),
        0 <= k < combo_count(dk),
    ensures
        pick(dims, now, k, acc) == Ok::<Map<Seq<char>, Seq<Seq<char>>>, FaultView>(
            acc.union_prefer_right(lifted(combo_at(dk, k))),
        ),
    decreases dims.len(),
{
    if dims.len() == 0 {
        assert(acc.union_prefer_right(lifted(combo_at(dk, k))) =~= acc);
    } else {
        let rest = dims.drop_first();
        let rk = dk.drop_first();
        let n = combo_count(rk) as int;
        let m = dk[0].1.len() as int;
        assert(n > 0) by (nonlinear_arith)
            requires
                0 <= k < m * n,
                m >= 0,
                n >= 0,
        ;
        assert(0 <= k / n < m && 0 <= k % n < n) by (nonlinear_arith)
            requires
                0 <= k < m * n,
                n > 0,
        ;
        assert forall|i: int| 0 <= i < rest.len() implies {
            &&& (#[trigger] rk[i]).0 == rest[i].0
            &&& single_keys(rest[i].1, now) == Ok::<Seq<Seq<char>>, FaultView>(rk[i].1)
            &&& rk[i].1.len() == key_count(rest[i].1, now)
        } by {
            assert(dk[i + 1].0 == dims[i + 1].0);
        }
        assert(distinct_keyed(rk)) by {
            assert forall|i: int, j: int| 0 <= i < j < rk.len() implies (#[trigger] rk[i]).0 != (
            #[trigger] rk[j]).0 by {
                assert(dk[i + 1].0 != dk[j + 1].0);
            }
        }
        lemma_counts(rest, rk, now);
        assert(dk[0].0 == dims[0].0);
        lemma_nth_key(dims[0].1, now, k / n);
        let s = dk[0].1[k / n];
        let acc1 = acc.insert(dims[0].0, seq![s]);
        lemma_pick(rest, rk, now, k % n, acc1);
        lemma_combo_parts(rk, k % n);
        let c = combo_at(rk, k % n);
        if c.dom().contains(dk[0].0) {
            let i = choose|i: int| 0 <= i < rk.len() && (#[trigger] rk[i]).0 == dk[0].0;
            assert(dk[0].0 != dk[i + 1].0);
        }
        assert(acc1.union_prefer_right(lifted(c)) =~= acc.union_prefer_right(
            lifted(combo_at(dk, k)),
        ));
    }
}

proof fn lemma_pick_range(
    dims: Seq<(Seq<char>, DefView)>,
    dk: Seq<DimKeys>,
    now: int,
    from: int,
    to: int,
)
    requires
        dk.len() == dims.len(),
        forall|i: int|
            0 <= i < dims.len() ==> {
                &&& (#[trigger] dk[i]).0 == dims[i].0
                &&& single_keys(dims[i].1, now) == Ok::<Seq<Seq<char>>, FaultView>(dk[i].1)
                &&& dk[i].1.len() == key_count(dims[i].1, now)
            },
        distinct_keyed(dk),
        0 <= from,
        to <= combo_count(dk),
    ensures
        from <= to ==> pick_range(dims, now, from, to) == Ok::<Seq<KeyView>, FaultView>(
            combo_keys(combos(dk)).subrange(from, to),
        ),
        from > to ==> pick_range(dims, now, from, to) == Ok::<Seq<KeyView>, FaultView>(
            Seq::empty(),
        ),
    decreases to - from,
{
    lemma_combo_count(dk);
    let all = combo_keys(combos(dk));
    if from < to {
        lemma_pick_range(dims, dk, now, from, to - 1);
        lemma_pick(dims, dk, now, to - 1, Map::empty());
        lemma_combo_at(dk, to - 1);
        let c = combo_at(dk, to - 1);
        assert(Map::<Seq<char>, Seq<Seq<char>>>::empty().union_prefer_right(lifted(c)) =~= lifted(
            c,
        ));
        assert(all[to - 1] == combo_key(combos(dk)[to - 1]));
        assert(combo_key(c) == KeyView::Multi(lifted(c))) by {
            assert(lifted(c) =~= combo_key(c)->Multi_0);
        }
        assert(all.subrange(from, to) =~= all.subrange(from, to - 1).push(all[to - 1]));
    } else if from == to {
        assert(all.subrange(from, to) =~= Seq::empty());
    }
}

/// A window of the keys of a scheme is a page of all of its keys.
pub proof fn lemma_window_is_page(d: DefView, now: int, offset: int, limit: int)
    requires
        all_keys(d, now) is Ok,
        d matches DefView::Multi(dims) ==> distinct_dims(dims),
        key_count(d, now) <= usize::MAX,
        0 <= offset <= usize::MAX,
        0 <= limit <= usize::MAX,
    ensures
        window_keys(d, now, offset, limit) == Ok::<Seq<KeyView>, FaultView>(
            page(all_keys(d, now)->Ok_0, offset, limit),
        ),
{
    let all = all_keys(d, now)->Ok_0;
    match d {
        DefView::Static(keys) => {
            assert(single_views(page(keys, offset, limit)) =~= page(
                single_views(keys),
                offset,
                limit,
            ));
        },
        DefView::TimeWindow(g) => {
            let ts = grid_ticks(g, grid_end(g, now))->Ok_0;
            lemma_format_all(ts, g.fmt);
            let from = at_most(offset, ts.len() as int);
            let to = at_most(from + limit, ts.len() as int);
            lemma_format_page(ts, g.fmt, from, to);
            let ks = format_all(ts, g.fmt)->Ok_0;
            assert(single_views(ks.subrange(from, to)) =~= page(single_views(ks), offset, limit));
        },
        DefView::Multi(dims) => {
            let dk = dims_keys(dims, now)->Ok_0;
            lemma_dims_keys(dims, now);
            lemma_counts(dims, dk, now);
            lemma_combo_count(dk);
            assert(distinct_keyed(dk)) by {
                assert forall|i: int, j: int| 0 <= i < j < dk.len() implies (#[trigger] dk[i]).0
                    != (#[trigger] dk[j]).0 by {
                    assert(dims[i].0 != dims[j].0);
                }
            }
            let total = dims_count(dims, now) as int;
            let to = page_end(total, offset, limit);
            lemma_pick_range(dims, dk, now, offset, to);
            if offset <= to {
                assert(all.subrange(offset, to) =~= page(all, offset, limit));
            } else {
                assert(page(all, offset, limit) =~= Seq::empty());
            }
        },
        DefView::Dynamic(_) => {},
    }
}

/// The keys of a capped scheme do not depend on the present.
pub proof fn lemma_capped_keys_stay(d: DefView, cap: int, now: int, later: int)
    ensures
        all_keys(capped(d, cap), now) == all_keys(capped(d, cap), later),
    decreases d,
{
    match d {
        DefView::Multi(dims) => {
            lemma_capped_dims_stay(dims, cap, now, later);
        },
        _ => {},
    }
}

proof fn lemma_capped_dims_stay(dims: Seq<(Seq<char>, DefView)>, cap: int, now: int, later: int)
    ensures
        dims_keys(capped_dims(dims, cap), now) == dims_keys(capped_dims(dims, cap), later),
    decreases dims,
{
    if dims.len() > 0 {
        lemma_capped_dims_stay(dims.drop_last(), cap, now, later);
        lemma_capped_keys_stay(dims.last().1, cap, now, later);
        let c = capped_dims(dims, cap);
        assert(c.drop_last() =~= capped_dims(dims.drop_last(), cap));
        assert(c.last() == (dims.last().0, capped(dims.last().1, cap)));
    }
}

} // verus!
