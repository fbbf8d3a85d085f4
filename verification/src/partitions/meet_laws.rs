//! What holds of the common part of two schemes: its keys are those that both have, it
//! does not matter which of the two is asked, and when there is none.
use vstd::prelude::*;
use crate::moment::formatted;
use crate::partitions::definition::{all_keys, dims_keys, single_keys, DefView};
use crate::partitions::grid::{
    format_all, grid_end, grid_keys, grid_ticks, lemma_format_all, GridView,
};
use crate::partitions::grid_laws::{lemma_ticks_are, lemma_ticks_prefix, regular};
use crate::partitions::key::KeyView;
use crate::partitions::key_laws::{sound, sound_dim};
use crate::partitions::listing_laws::{
    distinct_dims, distinct_keyed, lemma_dims_keys, lemma_single_views,
};
use crate::partitions::meet::{
    common_keys, dim_names, last_dim, lemma_common_keys, meet, meet_dims, meet_grids, same_members,
};
use crate::partitions::product::{combo_at, combo_keys, combos};
use crate::partitions::product_laws::{
    common_keyed, lemma_combo_key_listed, lemma_combo_keys, lemma_common_picks,
};
use crate::partitions::readings::Readings;
use crate::partitions::relation_laws::lemma_last_of_distinct;
use crate::schedule_laws::spaced;

verus! {

/// The dimensions of a scheme have distinct names, and so have those of each of them.
pub open spec fn well_named(d: DefView) -> bool
    decreases d,
{
    match d {
        DefView::Multi(dims) => distinct_dims(dims) && all_well_named(dims),
        _ => true,
    }
}

/// Every dimension of a list is well named.
pub open spec fn all_well_named(dims: Seq<(Seq<char>, DefView)>) -> bool
    decreases dims,
{
    dims.len() == 0 || (all_well_named(dims.drop_last()) && well_named(dims.last().1))
}

proof fn lemma_well_named(dims: Seq<(Seq<char>, DefView)>, i: int)
    requires
        all_well_named(dims),
        0 <= i < dims.len(),
    ensures
        well_named(dims[i].1),
    decreases dims.len(),
{
    if i < dims.len() - 1 {
        lemma_well_named(dims.drop_last(), i);
    }
}

/// The common part of dimensions, one by one.
pub proof fn lemma_meet_dims(x: Seq<(Seq<char>, DefView)>, y: Seq<(Seq<char>, DefView)>)
    ensures
        meet_dims(x, y) is Ok <==> forall|i: int|
            0 <= i < x.len() ==> (last_dim(y, (#[trigger] x[i]).0) matches Some(d) && meet(
                x[i].1,
                d,
            ) is Ok),
        meet_dims(x, y) matches Ok(v) ==> v.len() == x.len() && forall|i: int|
            0 <= i < x.len() ==> (#[trigger] v[i]).0 == x[i].0 && (last_dim(y, x[i].0) matches Some(
                d,
            ) && meet(x[i].1, d) == Ok::<DefView, Seq<char>>(v[i].1)),
    decreases x.len(),
{
    if x.len() > 0 {
        let w = x.drop_last();
        let n = x.len() - 1;
        lemma_meet_dims(w, y);
        assert forall|i: int| 0 <= i < n implies #[trigger] x[i] == w[i] by {}
        if meet_dims(x, y) is Ok {
            let u = meet_dims(w, y)->Ok_0;
            let v = meet_dims(x, y)->Ok_0;
            assert(v.len() == x.len());
            assert forall|i: int| 0 <= i < x.len() implies (#[trigger] v[i]).0 == x[i].0 && (
            last_dim(y, x[i].0) matches Some(d) && meet(x[i].1, d) == Ok::<DefView, Seq<char>>(
                v[i].1,
            )) by {
                if i < n {
                    assert(v[i] == u[i]);
                    assert(x[i] == w[i]);
                }
            }
            assert forall|i: int| 0 <= i < x.len() implies (last_dim(
                y,
                (#[trigger] x[i]).0,
            ) matches Some(d) && meet(x[i].1, d) is Ok) by {
                assert(v[i].0 == x[i].0);
            }
        } else if meet_dims(w, y) is Err {
            let i = choose|i: int|
                0 <= i < w.len() && !(last_dim(y, (#[trigger] w[i]).0) matches Some(d) && meet(
                    w[i].1,
                    d,
                ) is Ok);
            assert(x[i] == w[i]);
        } else {
            assert(x[n] == x.last());
        }
    }
}

/// A dimension of a list of the same names has its partner in the other list.
proof fn lemma_partner(x: Seq<(Seq<char>, DefView)>, y: Seq<(Seq<char>, DefView)>, j: int) -> (i: int)
    requires
        same_members(dim_names(x), dim_names(y)),
        0 <= j < y.len(),
    ensures
        0 <= i < x.len(),
        x[i].0 == y[j].0,
{
    assert(dim_names(y)[j] == y[j].0);
    assert(dim_names(y).contains(y[j].0));
    assert(dim_names(x).contains(y[j].0));
    let i = choose|i: int| 0 <= i < dim_names(x).len() && dim_names(x)[i] == y[j].0;
    assert(dim_names(x)[i] == x[i].0);
    i
}

/// Where dimensions have a common part one way, and each pair has one both ways, they
/// have one the other way.
proof fn lemma_meet_dims_back(x: Seq<(Seq<char>, DefView)>, y: Seq<(Seq<char>, DefView)>)
    requires
        distinct_dims(x),
        distinct_dims(y),
        same_members(dim_names(x), dim_names(y)),
        meet_dims(x, y) is Ok,
        forall|i: int, j: int|
            0 <= i < x.len() && 0 <= j < y.len() && (#[trigger] x[i]).0 == (#[trigger] y[j]).0 ==> (
            meet(x[i].1, y[j].1) is Ok <==> meet(y[j].1, x[i].1) is Ok),
    ensures
        meet_dims(y, x) is Ok,
{
    lemma_meet_dims(x, y);
    lemma_meet_dims(y, x);
    assert forall|j: int| 0 <= j < y.len() implies (last_dim(x, (#[trigger] y[j]).0) matches Some(
        d,
    ) && meet(y[j].1, d) is Ok) by {
        let i = lemma_partner(x, y, j);
        lemma_last_of_distinct(x, i);
        lemma_last_of_distinct(y, j);
        assert(last_dim(y, x[i].0) == Some(y[j].1));
        assert(meet(x[i].1, y[j].1) is Ok);
    }
}

/// Whether there is a common part does not depend on which of two schemes is asked.
pub proof fn lemma_meet_symmetric(a: DefView, b: DefView)
    requires
        well_named(a),
        well_named(b),
    ensures
        meet(a, b) is Ok <==> meet(b, a) is Ok,
    decreases a,
{
    match (a, b) {
        (DefView::Static(x), DefView::Static(y)) => {
            lemma_common_keys(x, y);
            lemma_common_keys(y, x);
            if common_keys(x, y).len() > 0 {
                assert(common_keys(x, y).contains(common_keys(x, y)[0]));
                assert(common_keys(y, x).contains(common_keys(x, y)[0]));
            }
            if common_keys(y, x).len() > 0 {
                assert(common_keys(y, x).contains(common_keys(y, x)[0]));
                assert(common_keys(x, y).contains(common_keys(y, x)[0]));
            }
        },
        (DefView::TimeWindow(x), DefView::TimeWindow(y)) => {
            reveal_strlit("NaN");
            reveal_strlit("0");
            reveal_strlit("-0");
            assert("0"@.len() == 1 && "-0"@.len() == 2 && "NaN"@.len() == 3);
        },
        (DefView::Multi(x), DefView::Multi(y)) => {
            assert(same_members(dim_names(x), dim_names(y)) == same_members(
                dim_names(y),
                dim_names(x),
            ));
            if same_members(dim_names(x), dim_names(y)) {
                lemma_meet_dims(x, y);
                lemma_meet_dims(y, x);
                assert(decreases_to!(a => x));
                assert forall|i: int, j: int|
                    0 <= i < x.len() && 0 <= j < y.len() && (#[trigger] x[i]).0 == (
                    #[trigger] y[j]).0 implies (meet(x[i].1, y[j].1) is Ok <==> meet(
                    y[j].1,
                    x[i].1,
                ) is Ok) by {
                    assert(decreases_to!(x => x[i]));
                    assert(decreases_to!(x[i] => x[i].1));
                    lemma_well_named(x, i);
                    lemma_well_named(y, j);
                    lemma_meet_symmetric(x[i].1, y[j].1);
                }
                if meet_dims(x, y) is Ok {
                    lemma_meet_dims_back(x, y);
                }
                if meet_dims(y, x) is Ok {
                    lemma_meet_dims_back(y, x);
                }
            }
        },
        _ => {},
    }
}

/// There is no common part of schemes of different kinds, of static schemes without a key
/// in common, of dynamic schemes of different names, nor of schemes whose dimensions are
/// not named alike.
pub proof fn lemma_meet_refused(a: DefView, b: DefView)
    requires
        match (a, b) {
            (DefView::Static(x), DefView::Static(y)) => forall|k: Seq<char>|
                !(#[trigger] x.contains(k) && y.contains(k)),
            (DefView::Dynamic(x), DefView::Dynamic(y)) => x != y,
            (DefView::Multi(x), DefView::Multi(y)) => !same_members(dim_names(x), dim_names(y)),
            (DefView::TimeWindow(_), DefView::TimeWindow(_)) => false,
            _ => true,
        },
    ensures
        meet(a, b) is Err,
{
    if let (DefView::Static(x), DefView::Static(y)) = (a, b) {
        lemma_common_keys(x, y);
        let c = common_keys(x, y);
        if c.len() > 0 {
            assert(c.contains(c[0]));
            assert(x.contains(c[0]) && y.contains(c[0]));
        }
    }
}

/// Whether two grids start their windows where both can: each wherever its cadence has
/// it, those of an interval a number of intervals apart, with ends that do not move with
/// the present, or that lie no later than it.
pub open spec fn grids_in_step(a: GridView, b: GridView, now: int) -> bool {
    &&& regular(a, grid_end(a, now))
    &&& regular(b, grid_end(b, now))
    &&& a.interval matches Some(iv) ==> (a.start - b.start) % iv.ns == 0
    &&& (a.end is Some && b.end is Some) || (grid_end(a, now) <= now && grid_end(b, now) <= now)
    &&& grid_ticks(a, grid_end(a, now))->Ok_0.len() < usize::MAX
    &&& grid_ticks(b, grid_end(b, now))->Ok_0.len() < usize::MAX
}

/// Whether two dimensions of one kind start their windows where both can.
pub open spec fn in_step(a: DefView, b: DefView, now: int) -> bool {
    match (a, b) {
        (DefView::TimeWindow(x), DefView::TimeWindow(y)) => grids_in_step(x, y, now),
        _ => true,
    }
}

/// The common part of two grids starts its windows where both do.
pub proof fn lemma_meet_ticks(a: GridView, b: GridView, now: int)
    requires
        grids_in_step(a, b, now),
        grid_ticks(a, grid_end(a, now)) is Ok,
        grid_ticks(b, grid_end(b, now)) is Ok,
        meet_grids(a, b) is Ok,
    ensures
        ({
            let m = meet_grids(a, b)->Ok_0;
            let ta = grid_ticks(a, grid_end(a, now))->Ok_0;
            let tb = grid_ticks(b, grid_end(b, now))->Ok_0;
            grid_ticks(m, grid_end(m, now)) matches Ok(tm) && forall|t: int| #[trigger]
                tm.contains(t) <==> ta.contains(t) && tb.contains(t)
        }),
{
    let m = meet_grids(a, b)->Ok_0;
    let ea = grid_end(a, now);
    let eb = grid_end(b, now);
    let em = grid_end(m, now);
    let ta = grid_ticks(a, ea)->Ok_0;
    let tb = grid_ticks(b, eb)->Ok_0;
    assert(em <= ea && em <= eb && (em == ea || em == eb));
    if m.start == a.start {
        lemma_ticks_prefix(a, em, ea);
        assert(grid_ticks(m, em) == grid_ticks(a, em));
    } else {
        lemma_ticks_prefix(b, em, eb);
        assert(grid_ticks(m, em) == grid_ticks(b, em));
    }
    let tm = grid_ticks(m, em)->Ok_0;
    assert(regular(m, em)) by {
        if m.interval is None {
            assert(spaced(m.cron->0, m.start, em));
        }
    }
    assert forall|t: int| #[trigger] tm.contains(t) <==> ta.contains(t) && tb.contains(t) by {
        lemma_ticks_are(a, ea, t);
        lemma_ticks_are(b, eb, t);
        lemma_ticks_are(m, em, t);
        if let Some(iv) = a.interval {
            let d = a.start - b.start;
            assert((t - a.start) % iv.ns == 0 <==> (t - b.start) % iv.ns == 0) by {
                lemma_same_rest(t - a.start, d, iv.ns);
            }
        }
    }
}

proof fn lemma_same_rest(x: int, d: int, step: int)
    requires
        step > 0,
        d % step == 0,
    ensures
        x % step == 0 <==> (x + d) % step == 0,
{
    vstd::arithmetic::div_mod::lemma_add_mod_noop(x, d, step);
    vstd::arithmetic::div_mod::lemma_mod_twice(x, step);
}

/// The keys of the common part of two dimensions are the keys that both have.
pub proof fn lemma_meet_dim_keys(a: DefView, b: DefView, now: int, readings: Readings)
    requires
        sound_dim(a, now, readings),
        sound_dim(b, now, readings),
        in_step(a, b, now),
        single_keys(a, now) is Ok,
        single_keys(b, now) is Ok,
        meet(a, b) is Ok,
    ensures
        single_keys(meet(a, b)->Ok_0, now) matches Ok(ks) && forall|k: Seq<char>| #[trigger]
            ks.contains(k) <==> single_keys(a, now)->Ok_0.contains(k) && single_keys(
                b,
                now,
            )->Ok_0.contains(k),
{
    match (a, b) {
        (DefView::Static(x), DefView::Static(y)) => {
            lemma_common_keys(x, y);
            lemma_single_views(x);
            lemma_single_views(y);
            lemma_single_views(common_keys(x, y));
        },
        (DefView::TimeWindow(x), DefView::TimeWindow(y)) => {
            lemma_meet_ticks(x, y, now);
            let m = meet_grids(x, y)->Ok_0;
            let tx = grid_ticks(x, grid_end(x, now))->Ok_0;
            let ty = grid_ticks(y, grid_end(y, now))->Ok_0;
            let tm = grid_ticks(m, grid_end(m, now))->Ok_0;
            let kx = grid_keys(x, grid_end(x, now))->Ok_0;
            let ky = grid_keys(y, grid_end(y, now))->Ok_0;
            lemma_format_all(tx, x.fmt);
            lemma_format_all(ty, x.fmt);
            lemma_format_all(tm, x.fmt);
            if format_all(tm, x.fmt) is Err {
                let i = choose|i: int|
                    0 <= i < tm.len() && formatted(#[trigger] tm[i], x.fmt) is None;
                assert(tm.contains(tm[i]));
                let j = choose|j: int| 0 <= j < tx.len() && tx[j] == tm[i];
                assert(formatted(tx[j], x.fmt) is Some);
            }
            let km = format_all(tm, x.fmt)->Ok_0;
            lemma_single_views(kx);
            lemma_single_views(ky);
            lemma_single_views(km);
            assert forall|k: Seq<char>| #[trigger] km.contains(k) <==> kx.contains(k)
                && ky.contains(k) by {
                if km.contains(k) {
                    let i = choose|i: int| 0 <= i < km.len() && km[i] == k;
                    assert(formatted(tm[i], x.fmt) == Some(k));
                    assert(tm.contains(tm[i]));
                    let j = choose|j: int| 0 <= j < tx.len() && tx[j] == tm[i];
                    assert(formatted(tx[j], x.fmt) == Some(kx[j]));
                    let l = choose|l: int| 0 <= l < ty.len() && ty[l] == tm[i];
                    assert(formatted(ty[l], x.fmt) == Some(ky[l]));
                }
                if kx.contains(k) && ky.contains(k) {
                    let j = choose|j: int| 0 <= j < kx.len() && kx[j] == k;
                    let l = choose|l: int| 0 <= l < ky.len() && ky[l] == k;
                    assert(readings.of(kx[j], x.fmt) == Ok::<int, Seq<char>>(tx[j]));
                    assert(readings.of(ky[l], y.fmt) == Ok::<int, Seq<char>>(ty[l]));
                    assert(tx.contains(tx[j]) && ty.contains(ty[l]));
                    assert(tm.contains(tx[j]));
                    let i = choose|i: int| 0 <= i < tm.len() && tm[i] == tx[j];
                    assert(formatted(tx[j], x.fmt) == Some(kx[j]));
                    assert(formatted(tm[i], x.fmt) == Some(km[i]));
                }
            }
        },
        _ => {},
    }
}

/// Where the keys of each dimension can be listed, those of all can.
pub proof fn lemma_dims_listed(dims: Seq<(Seq<char>, DefView)>, now: int)
    requires
        forall|i: int| 0 <= i < dims.len() ==> single_keys((#[trigger] dims[i]).1, now) is Ok,
    ensures
        dims_keys(dims, now) is Ok,
    decreases dims.len(),
{
    if dims.len() > 0 {
        let w = dims.drop_last();
        assert forall|i: int| 0 <= i < w.len() implies single_keys((#[trigger] w[i]).1, now) is Ok by {
            assert(dims[i] == w[i]);
        }
        lemma_dims_listed(w, now);
        assert(single_keys(dims[dims.len() - 1].1, now) is Ok);
    }
}

/// The keys of the common part of two schemes of several dimensions are the keys that
/// both have. It has the names of the first, in its order.
pub proof fn lemma_meet_multi_keys(
    x: Seq<(Seq<char>, DefView)>,
    y: Seq<(Seq<char>, DefView)>,
    now: int,
    readings: Readings,
)
    requires
        sound(DefView::Multi(x), now, readings),
        sound(DefView::Multi(y), now, readings),
        forall|i: int, j: int|
            0 <= i < x.len() && 0 <= j < y.len() && (#[trigger] x[i]).0 == (#[trigger] y[j]).0
                ==> in_step(x[i].1, y[j].1, now),
        all_keys(DefView::Multi(x), now) is Ok,
        all_keys(DefView::Multi(y), now) is Ok,
        meet(DefView::Multi(x), DefView::Multi(y)) is Ok,
    ensures
        meet(DefView::Multi(x), DefView::Multi(y)) matches Ok(m) && m is Multi && dim_names(
            m->Multi_0,
        ) == dim_names(x) && (all_keys(m, now) matches Ok(ks) && forall|k: KeyView| #[trigger]
            ks.contains(k) <==> all_keys(DefView::Multi(x), now)->Ok_0.contains(k) && all_keys(
                DefView::Multi(y),
                now,
            )->Ok_0.contains(k)),
{
    let v = meet_dims(x, y)->Ok_0;
    lemma_meet_dims(x, y);
    assert(dim_names(v) =~= dim_names(x));
    lemma_dims_keys(x, now);
    lemma_dims_keys(y, now);
    let kx = dims_keys(x, now)->Ok_0;
    let ky = dims_keys(y, now)->Ok_0;
    assert forall|i: int| 0 <= i < v.len() implies single_keys((#[trigger] v[i]).1, now) is Ok by {
        lemma_common_dim(x, y, v, i, now, readings);
    }
    lemma_dims_listed(v, now);
    lemma_dims_keys(v, now);
    let kv = dims_keys(v, now)->Ok_0;
    assert(distinct_keyed(kx)) by {
        assert forall|i: int, j: int| 0 <= i < j < kx.len() implies (#[trigger] kx[i]).0 != (
        #[trigger] kx[j]).0 by {
            assert(x[i].0 != x[j].0);
        }
    }
    assert(distinct_keyed(ky)) by {
        assert forall|i: int, j: int| 0 <= i < j < ky.len() implies (#[trigger] ky[i]).0 != (
        #[trigger] ky[j]).0 by {
            assert(y[i].0 != y[j].0);
        }
    }
    assert(distinct_keyed(kv)) by {
        assert forall|i: int, j: int| 0 <= i < j < kv.len() implies (#[trigger] kv[i]).0 != (
        #[trigger] kv[j]).0 by {
            assert(v[i].0 == x[i].0 && v[j].0 == x[j].0);
            assert(x[i].0 != x[j].0);
        }
    }
    assert forall|i: int| 0 <= i < kv.len() implies (#[trigger] kv[i]).0 == kx[i].0 by {
        assert(v[i].0 == x[i].0);
        assert(kx[i].0 == x[i].0);
    }
    assert forall|i: int| 0 <= i < kx.len() implies common_keyed(
        #[trigger] kx[i],
        ky,
        kv[i].1,
    ) by {
        let j = lemma_common_dim(x, y, v, i, now, readings);
        assert(kx[i].0 == x[i].0 && ky[j].0 == y[j].0 && kv[i].0 == v[i].0);
        assert forall|l: int, k: Seq<char>|
            0 <= l < ky.len() && (#[trigger] ky[l]).0 == kx[i].0 implies (#[trigger] kv[i].1.contains(
            k,
        ) <==> kx[i].1.contains(k) && ky[l].1.contains(k)) by {
            assert(l == j) by {
                if l < j {
                    assert(ky[l].0 != ky[j].0);
                }
                if j < l {
                    assert(ky[j].0 != ky[l].0);
                }
            }
            let ks = single_keys(v[i].1, now)->Ok_0;
            assert(ks == kv[i].1);
            assert(single_keys(x[i].1, now)->Ok_0 == kx[i].1);
            assert(single_keys(y[j].1, now)->Ok_0 == ky[j].1);
            assert(ks.contains(k) <==> kx[i].1.contains(k) && ky[j].1.contains(k));
        }
    }
    assert forall|j: int| 0 <= j < ky.len() implies exists|i: int|
        0 <= i < kx.len() && (#[trigger] kx[i]).0 == (#[trigger] ky[j]).0 by {
        let i = lemma_partner(x, y, j);
        assert(kx[i].0 == x[i].0);
    }
    let all_x = combo_keys(combos(kx));
    let all_y = combo_keys(combos(ky));
    let all_v = combo_keys(combos(kv));
    assert forall|k: KeyView| #[trigger] all_v.contains(k) <==> all_x.contains(k)
        && all_y.contains(k) by {
        if all_v.contains(k) {
            let i = choose|i: int| 0 <= i < all_v.len() && all_v[i] == k;
            lemma_combo_keys(kv, i);
            let c = combo_at(kv, i);
            lemma_common_picks(kx, ky, kv, c);
            lemma_combo_key_listed(kx, c);
            lemma_combo_key_listed(ky, c);
        }
        if all_x.contains(k) && all_y.contains(k) {
            let i = choose|i: int| 0 <= i < all_x.len() && all_x[i] == k;
            lemma_combo_keys(kx, i);
            let c = combo_at(kx, i);
            lemma_combo_key_listed(ky, c);
            lemma_common_picks(kx, ky, kv, c);
            lemma_combo_key_listed(kv, c);
        }
    }
}

/// The keys of a dimension of the common part are those that both have.
proof fn lemma_common_dim(
    x: Seq<(Seq<char>, DefView)>,
    y: Seq<(Seq<char>, DefView)>,
    v: Seq<(Seq<char>, DefView)>,
    i: int,
    now: int,
    readings: Readings,
) -> (j: int)
    requires
        sound(DefView::Multi(x), now, readings),
        sound(DefView::Multi(y), now, readings),
        forall|i: int, j: int|
            0 <= i < x.len() && 0 <= j < y.len() && (#[trigger] x[i]).0 == (#[trigger] y[j]).0
                ==> in_step(x[i].1, y[j].1, now),
        dims_keys(x, now) is Ok,
        dims_keys(y, now) is Ok,
        same_members(dim_names(x), dim_names(y)),
        meet_dims(x, y) == Ok::<Seq<(Seq<char>, DefView)>, Seq<char>>(v),
        0 <= i < x.len(),
    ensures
        0 <= j < y.len(),
        y[j].0 == x[i].0,
        v.len() == x.len(),
        v[i].0 == x[i].0,
        single_keys(v[i].1, now) matches Ok(ks) && forall|k: Seq<char>| #[trigger]
            ks.contains(k) <==> single_keys(x[i].1, now)->Ok_0.contains(k) && single_keys(
                y[j].1,
                now,
            )->Ok_0.contains(k),
{
    lemma_meet_dims(x, y);
    lemma_dims_keys(x, now);
    lemma_dims_keys(y, now);
    assert(v[i].0 == x[i].0);
    let j = lemma_partner(y, x, i);
    lemma_last_of_distinct(y, j);
    assert(dims_keys(x, now)->Ok_0[i].0 == x[i].0);
    assert(dims_keys(y, now)->Ok_0[j].0 == y[j].0);
    assert(sound_dim(x[i].1, now, readings) && sound_dim(y[j].1, now, readings));
    lemma_meet_dim_keys(x[i].1, y[j].1, now, readings);
    j
}

} // verus!
