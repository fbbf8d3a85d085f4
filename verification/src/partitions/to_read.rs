//! Which keys an operation reads, and which shifts it makes: what the host has to look up
//! before it asks. Whatever else the host knows does not change the answer.
use vstd::prelude::*;
use crate::moment::Moment;
use crate::names::{lemma_pairs_value, NameMap};
use crate::partitions::definition::{
    def_view, def_wf, dims_of, find_dim, lemma_dims_of, single_keys, DefView, PartitionsDefinition,
};
use crate::partitions::key::{
    dims_view, key_view, key_wf, keys_view, lemma_keys_view, lemma_member_decreases, KeyView,
    PyPartitionKey,
};
use crate::partitions::key_range::{
    against_fault, dim_in_range, dim_suffix, dims_range_fault, explicit_fault, in_range,
    keys_in_range, range_fault, range_has, resolved, selected_dims, selected_keys, sels_wf,
    DimensionSelection, PartitionKeyRangeInner, PyPartitionKeyRange, SelView,
};
use crate::partitions::readings::Readings;
use crate::partitions::rules::{
    batch_valid, dim_checks, dim_valid, key_valid, single_valid, value_checks, window_checks,
};
use crate::text::texts;

verus! {

/// A key and the format under which it is read.
pub type Ask = (Seq<char>, Seq<char>);

/// What a list of keys and formats asks for.
pub open spec fn asks_view(v: Seq<(String, String)>) -> Seq<Ask> {
    v.map_values(|p: (String, String)| (p.0@, p.1@))
}

/// Whether two lists of readings say the same of everything that is asked for.
pub open spec fn agree(a: Readings, b: Readings, asks: Seq<Ask>) -> bool {
    forall|i: int|
        0 <= i < asks.len() ==> a.of((#[trigger] asks[i]).0, asks[i].1) == b.of(
            asks[i].0,
            asks[i].1,
        )
}

/// What agrees on two lists agrees on each.
pub proof fn lemma_agree_parts(a: Readings, b: Readings, x: Seq<Ask>, y: Seq<Ask>)
    requires
        agree(a, b, x + y),
    ensures
        agree(a, b, x),
        agree(a, b, y),
{
    assert forall|i: int| 0 <= i < x.len() implies a.of((#[trigger] x[i]).0, x[i].1) == b.of(
        x[i].0,
        x[i].1,
    ) by {
        assert((x + y)[i] == x[i]);
    }
    assert forall|i: int| 0 <= i < y.len() implies a.of((#[trigger] y[i]).0, y[i].1) == b.of(
        y[i].0,
        y[i].1,
    ) by {
        assert((x + y)[x.len() + i] == y[i]);
    }
}

/// What is read to place texts in a dimension: each of them, where the dimension is a
/// time grid.
pub open spec fn reads_under(d: DefView, keys: Seq<Seq<char>>) -> Seq<Ask> {
    match d {
        DefView::TimeWindow(g) => keys.map_values(|k: Seq<char>| (k, g.fmt)),
        _ => Seq::empty(),
    }
}

/// What is read to place the values of a key in their dimensions.
pub open spec fn dims_reads(
    dims: Seq<(Seq<char>, DefView)>,
    m: Map<Seq<char>, Seq<Seq<char>>>,
) -> Seq<Ask>
    decreases dims.len(),
{
    if dims.len() == 0 {
        Seq::empty()
    } else {
        dims_reads(dims.drop_last(), m) + if m.dom().contains(dims.last().0) {
            reads_under(dims.last().1, m[dims.last().0])
        } else {
            Seq::empty()
        }
    }
}

/// What is read to check a key against a scheme.
pub open spec fn key_reads(d: DefView, k: KeyView) -> Seq<Ask>
    decreases k,
{
    match k {
        KeyView::Single(keys) => reads_under(d, keys),
        KeyView::Multi(m) => match d {
            DefView::Multi(dims) => dims_reads(dims, m),
            _ => Seq::empty(),
        },
        KeyView::Batch(members) => members_reads(d, members),
    }
}

/// What is read to check the members of a batch.
pub open spec fn members_reads(d: DefView, keys: Seq<KeyView>) -> Seq<Ask>
    decreases keys,
{
    if keys.len() == 0 {
        Seq::empty()
    } else {
        members_reads(d, keys.drop_last()) + key_reads(d, keys.last())
    }
}

proof fn lemma_single_reads(d: DefView, now: int, keys: Seq<Seq<char>>, a: Readings, b: Readings)
    requires
        agree(a, b, reads_under(d, keys)),
    ensures
        single_valid(d, now, keys, a) == single_valid(d, now, keys, b),
        value_checks(d, now, keys, a) == value_checks(d, now, keys, b),
{
    assert forall|i: int| 0 <= i < keys.len() implies single_valid(
        d,
        now,
        seq![#[trigger] keys[i]],
        a,
    ) == single_valid(d, now, seq![keys[i]], b) by {
        if let DefView::TimeWindow(g) = d {
            assert(reads_under(d, keys)[i] == (keys[i], g.fmt));
            assert(window_checks(g, now, seq![keys[i]], a) =~= window_checks(
                g,
                now,
                seq![keys[i]],
                b,
            ));
        }
    }
    assert(value_checks(d, now, keys, a) =~= value_checks(d, now, keys, b));
    if let DefView::TimeWindow(g) = d {
        assert forall|i: int| 0 <= i < keys.len() implies a.of(#[trigger] keys[i], g.fmt) == b.of(
            keys[i],
            g.fmt,
        ) by {
            assert(reads_under(d, keys)[i] == (keys[i], g.fmt));
        }
        assert(window_checks(g, now, keys, a) =~= window_checks(g, now, keys, b));
    }
}

proof fn lemma_dims_reads(
    dims: Seq<(Seq<char>, DefView)>,
    m: Map<Seq<char>, Seq<Seq<char>>>,
    i: int,
    a: Readings,
    b: Readings,
)
    requires
        agree(a, b, dims_reads(dims, m)),
        0 <= i < dims.len(),
        m.dom().contains(dims[i].0),
    ensures
        agree(a, b, reads_under(dims[i].1, m[dims[i].0])),
    decreases dims.len(),
{
    let w = dims.drop_last();
    lemma_agree_parts(
        a,
        b,
        dims_reads(w, m),
        if m.dom().contains(dims.last().0) {
            reads_under(dims.last().1, m[dims.last().0])
        } else {
            Seq::empty()
        },
    );
    if i < w.len() {
        lemma_dims_reads(w, m, i, a, b);
    }
}

/// The verdict on a key rests on what is read for it, and on nothing else.
pub proof fn lemma_key_reads(d: DefView, now: int, k: KeyView, a: Readings, b: Readings)
    requires
        agree(a, b, key_reads(d, k)),
    ensures
        key_valid(d, now, k, a) == key_valid(d, now, k, b),
    decreases k,
{
    match k {
        KeyView::Single(keys) => {
            lemma_single_reads(d, now, keys, a, b);
        },
        KeyView::Multi(m) => {
            if let DefView::Multi(dims) = d {
                let x = dim_checks(dims, now, m, a);
                let y = dim_checks(dims, now, m, b);
                assert forall|i: int| 0 <= i < x.len() implies #[trigger] x[i] == y[i] by {
                    assert(x[i] == dim_valid(dims[i], now, m, a));
                    assert(y[i] == dim_valid(dims[i], now, m, b));
                    if m.dom().contains(dims[i].0) {
                        lemma_dims_reads(dims, m, i, a, b);
                        lemma_single_reads(dims[i].1, now, m[dims[i].0], a, b);
                    }
                }
                assert(x =~= y);
            }
        },
        KeyView::Batch(members) => {
            lemma_members_reads(d, now, members, a, b);
        },
    }
}

proof fn lemma_members_reads(d: DefView, now: int, keys: Seq<KeyView>, a: Readings, b: Readings)
    requires
        agree(a, b, members_reads(d, keys)),
    ensures
        batch_valid(d, now, keys, a) == batch_valid(d, now, keys, b),
    decreases keys,
{
    if keys.len() > 0 {
        lemma_agree_parts(a, b, members_reads(d, keys.drop_last()), key_reads(d, keys.last()));
        lemma_members_reads(d, now, keys.drop_last(), a, b);
        lemma_key_reads(d, now, keys.last(), a, b);
    }
}

/// The keys of a dimension, where they can be listed.
pub open spec fn own_keys(d: DefView, now: int) -> Seq<Seq<char>> {
    match single_keys(d, now) {
        Ok(ks) => ks,
        Err(_) => Seq::empty(),
    }
}

/// What is read to resolve a selection of a dimension: of a range its ends and the keys
/// of the dimension itself, else the listed keys.
pub open spec fn selection_reads(d: DefView, sel: SelView, now: int) -> Seq<Ask> {
    match sel {
        SelView::Range(from, to) => reads_under(d, seq![from, to]) + reads_under(
            d,
            own_keys(d, now),
        ),
        SelView::Keys(keys) => reads_under(d, keys),
    }
}

/// What is read to resolve the selections of a range, dimension by dimension.
pub open spec fn selections_reads(
    dims: Seq<(Seq<char>, DefView)>,
    sels: Map<Seq<char>, DimensionSelection>,
    now: int,
) -> Seq<Ask>
    decreases dims.len(),
{
    if dims.len() == 0 {
        Seq::empty()
    } else {
        selections_reads(dims.drop_last(), sels, now) + if sels.dom().contains(dims.last().0) {
            selection_reads(dims.last().1, sels[dims.last().0]@, now)
        } else {
            Seq::empty()
        }
    }
}

/// What is read to check a range against a scheme, and to resolve it.
pub open spec fn range_reads(r: PyPartitionKeyRange, d: DefView, now: int) -> Seq<Ask> {
    match r.inner {
        PartitionKeyRangeInner::Single { from_key, to_key } => selection_reads(
            d,
            SelView::Range(from_key@, to_key@),
            now,
        ),
        PartitionKeyRangeInner::Multi { dimensions } => match d {
            DefView::Multi(dims) => selections_reads(dims, dimensions@, now),
            _ => Seq::empty(),
        },
    }
}

proof fn lemma_ends_read(
    d: DefView,
    from: Seq<char>,
    to: Seq<char>,
    key: Seq<char>,
    a: Readings,
    b: Readings,
)
    requires
        agree(a, b, reads_under(d, seq![from, to])),
        agree(a, b, reads_under(d, seq![key])),
    ensures
        in_range(key, from, to, Some(d), a) == in_range(key, from, to, Some(d), b),
{
    if let DefView::TimeWindow(g) = d {
        assert(reads_under(d, seq![from, to])[0] == (from, g.fmt));
        assert(reads_under(d, seq![from, to])[1] == (to, g.fmt));
        assert(reads_under(d, seq![key])[0] == (key, g.fmt));
    }
}

proof fn lemma_fault_read(
    d: DefView,
    from: Seq<char>,
    to: Seq<char>,
    suffix: Seq<char>,
    a: Readings,
    b: Readings,
)
    requires
        agree(a, b, reads_under(d, seq![from, to])),
    ensures
        range_fault(d, from, to, suffix, a) == range_fault(d, from, to, suffix, b),
{
    if let DefView::TimeWindow(g) = d {
        assert(reads_under(d, seq![from, to])[0] == (from, g.fmt));
        assert(reads_under(d, seq![from, to])[1] == (to, g.fmt));
    }
}

proof fn lemma_range_keys_read(
    d: DefView,
    from: Seq<char>,
    to: Seq<char>,
    keys: Seq<Seq<char>>,
    a: Readings,
    b: Readings,
)
    requires
        agree(a, b, reads_under(d, seq![from, to])),
        agree(a, b, reads_under(d, keys)),
    ensures
        keys_in_range(keys, from, to, d, a) == keys_in_range(keys, from, to, d, b),
    decreases keys.len(),
{
    if keys.len() > 0 {
        let w = keys.drop_last();
        assert(agree(a, b, reads_under(d, w)) && agree(a, b, reads_under(d, seq![keys.last()]))) by {
            if let DefView::TimeWindow(g) = d {
                assert forall|i: int| 0 <= i < keys.len() implies a.of(#[trigger] keys[i], g.fmt)
                    == b.of(keys[i], g.fmt) by {
                    assert(reads_under(d, keys)[i] == (keys[i], g.fmt));
                }
                assert(keys.last() == keys[keys.len() - 1]);
            }
        }
        lemma_range_keys_read(d, from, to, w, a, b);
        lemma_ends_read(d, from, to, keys.last(), a, b);
    }
}

proof fn lemma_explicit_read(
    keys: Seq<Seq<char>>,
    dim: (Seq<char>, DefView),
    now: int,
    a: Readings,
    b: Readings,
)
    requires
        agree(a, b, reads_under(dim.1, keys)),
    ensures
        explicit_fault(keys, dim, now, a) == explicit_fault(keys, dim, now, b),
    decreases keys.len(),
{
    if keys.len() > 0 {
        let w = keys.drop_last();
        let one = seq![keys.last()];
        assert(agree(a, b, reads_under(dim.1, w)) && agree(a, b, reads_under(dim.1, one))) by {
            if let DefView::TimeWindow(g) = dim.1 {
                assert forall|i: int| 0 <= i < keys.len() implies a.of(#[trigger] keys[i], g.fmt)
                    == b.of(keys[i], g.fmt) by {
                    assert(reads_under(dim.1, keys)[i] == (keys[i], g.fmt));
                }
                assert(keys.last() == keys[keys.len() - 1]);
            }
        }
        lemma_explicit_read(w, dim, now, a, b);
        lemma_single_reads(dim.1, now, one, a, b);
    }
}

proof fn lemma_selections_read(
    dims: Seq<(Seq<char>, DefView)>,
    sels: Map<Seq<char>, DimensionSelection>,
    now: int,
    i: int,
    a: Readings,
    b: Readings,
)
    requires
        agree(a, b, selections_reads(dims, sels, now)),
        0 <= i < dims.len(),
        sels.dom().contains(dims[i].0),
    ensures
        agree(a, b, selection_reads(dims[i].1, sels[dims[i].0]@, now)),
    decreases dims.len(),
{
    let w = dims.drop_last();
    lemma_agree_parts(
        a,
        b,
        selections_reads(w, sels, now),
        if sels.dom().contains(dims.last().0) {
            selection_reads(dims.last().1, sels[dims.last().0]@, now)
        } else {
            Seq::empty()
        },
    );
    if i < w.len() {
        lemma_selections_read(w, sels, now, i, a, b);
    }
}

proof fn lemma_selected_read(
    dims: Seq<(Seq<char>, DefView)>,
    sels: Map<Seq<char>, DimensionSelection>,
    now: int,
    a: Readings,
    b: Readings,
)
    requires
        agree(a, b, selections_reads(dims, sels, now)),
    ensures
        selected_dims(dims, sels, now, a) == selected_dims(dims, sels, now, b),
    decreases dims.len(),
{
    if dims.len() > 0 {
        let w = dims.drop_last();
        let dim = dims.last();
        lemma_agree_parts(
            a,
            b,
            selections_reads(w, sels, now),
            if sels.dom().contains(dim.0) {
                selection_reads(dim.1, sels[dim.0]@, now)
            } else {
                Seq::empty()
            },
        );
        lemma_selected_read(w, sels, now, a, b);
        if sels.dom().contains(dim.0) {
            match sels[dim.0]@ {
                SelView::Range(from, to) => {
                    lemma_agree_parts(
                        a,
                        b,
                        reads_under(dim.1, seq![from, to]),
                        reads_under(dim.1, own_keys(dim.1, now)),
                    );
                    lemma_fault_read(dim.1, from, to, dim_suffix(Some(dim.0)), a, b);
                    lemma_range_keys_read(dim.1, from, to, own_keys(dim.1, now), a, b);
                },
                SelView::Keys(keys) => {
                    lemma_explicit_read(keys, dim, now, a, b);
                },
            }
        }
        assert(selected_keys(dim, sels, now, a) == selected_keys(dim, sels, now, b));
    }
}

proof fn lemma_dims_fault_read(
    s: Seq<(String, DimensionSelection)>,
    dims: Seq<(Seq<char>, DefView)>,
    sels: Map<Seq<char>, DimensionSelection>,
    now: int,
    a: Readings,
    b: Readings,
)
    requires
        agree(a, b, selections_reads(dims, sels, now)),
        forall|i: int|
            0 <= i < s.len() ==> sels.dom().contains((#[trigger] s[i]).0@) && sels[s[i].0@]
                == s[i].1,
    ensures
        dims_range_fault(s, dims, a) == dims_range_fault(s, dims, b),
    decreases s.len(),
{
    if s.len() > 0 {
        let w = s.drop_last();
        assert forall|i: int| 0 <= i < w.len() implies sels.dom().contains((#[trigger] w[i]).0@)
            && sels[w[i].0@] == w[i].1 by {
            assert(s[i] == w[i]);
        }
        lemma_dims_fault_read(w, dims, sels, now, a, b);
        let last = s[s.len() - 1];
        let name = last.0@;
        if let SelView::Range(from, to) = last.1@ {
            if find_dim(dims, name) is Some {
                let i = lemma_found_dim(dims, name);
                lemma_selections_read(dims, sels, now, i, a, b);
                lemma_agree_parts(
                    a,
                    b,
                    reads_under(dims[i].1, seq![from, to]),
                    reads_under(dims[i].1, own_keys(dims[i].1, now)),
                );
                lemma_fault_read(dims[i].1, from, to, dim_suffix(Some(name)), a, b);
            }
        }
    }
}

/// A dimension that was found stands somewhere in the list.
proof fn lemma_found_dim(dims: Seq<(Seq<char>, DefView)>, name: Seq<char>) -> (i: int)
    requires
        find_dim(dims, name) is Some,
    ensures
        0 <= i < dims.len(),
        dims[i].0 == name,
        find_dim(dims, name) == Some(dims[i].1),
    decreases dims.len(),
{
    if dims[0].0 == name {
        0
    } else {
        let j = lemma_found_dim(dims.drop_first(), name);
        j + 1
    }
}

proof fn lemma_entries_named(m: NameMap<DimensionSelection>)
    requires
        m.wf(),
    ensures
        forall|i: int|
            0 <= i < m.entries@.len() ==> m@.dom().contains((#[trigger] m.entries@[i]).0@)
                && m@[m.entries@[i].0@] == m.entries@[i].1,
{
    let e = m.entries@;
    assert forall|i: int| 0 <= i < e.len() implies m@.dom().contains((#[trigger] e[i]).0@)
        && m@[e[i].0@] == e[i].1 by {
        assert forall|j: int| i < j < e.len() implies (#[trigger] e[j]).0@ != e[i].0@ by {
            assert(e[i].0@ != e[j].0@);
        }
        lemma_pairs_value(e, i);
    }
}

/// Whether a range fits a scheme, and which keys it stands for, rest on what is read for
/// it, and on nothing else.
pub proof fn lemma_range_reads(
    r: PyPartitionKeyRange,
    d: DefView,
    now: int,
    a: Readings,
    b: Readings,
)
    requires
        r.wf(),
        agree(a, b, range_reads(r, d, now)),
    ensures
        against_fault(r, d, a) == against_fault(r, d, b),
        resolved(r, d, now, a) == resolved(r, d, now, b),
{
    match r.inner {
        PartitionKeyRangeInner::Single { from_key, to_key } => {
            let from = from_key@;
            let to = to_key@;
            lemma_agree_parts(
                a,
                b,
                reads_under(d, seq![from, to]),
                reads_under(d, own_keys(d, now)),
            );
            lemma_fault_read(d, from, to, dim_suffix(None), a, b);
            lemma_range_keys_read(d, from, to, own_keys(d, now), a, b);
        },
        PartitionKeyRangeInner::Multi { dimensions } => {
            if let DefView::Multi(dims) = d {
                lemma_entries_named(dimensions);
                lemma_dims_fault_read(dimensions.entries@, dims, dimensions@, now, a, b);
                lemma_selected_read(dims, dimensions@, now, a, b);
            }
        },
    }
}

/// Whether a key lies in a range rests on what is read for the two, and on nothing else.
pub proof fn lemma_range_has_reads(
    r: PyPartitionKeyRange,
    d: DefView,
    now: int,
    k: KeyView,
    a: Readings,
    b: Readings,
)
    requires
        r.wf(),
        agree(a, b, range_reads(r, d, now)),
        agree(a, b, key_reads(d, k)),
    ensures
        range_has(r, k, Some(d), a) == range_has(r, k, Some(d), b),
{
    match (r.inner, k) {
        (PartitionKeyRangeInner::Single { from_key, to_key }, KeyView::Single(keys)) => {
            lemma_agree_parts(
                a,
                b,
                reads_under(d, seq![from_key@, to_key@]),
                reads_under(d, own_keys(d, now)),
            );
            if keys.len() > 0 {
                assert(agree(a, b, reads_under(d, seq![keys[0]]))) by {
                    if let DefView::TimeWindow(g) = d {
                        assert(reads_under(d, keys)[0] == (keys[0], g.fmt));
                    }
                }
                lemma_ends_read(d, from_key@, to_key@, keys[0], a, b);
            }
        },
        (PartitionKeyRangeInner::Multi { dimensions }, KeyView::Multi(m)) => {
            let e = dimensions.entries@;
            lemma_entries_named(dimensions);
            assert forall|i: int| 0 <= i < e.len() implies dim_in_range(
                (#[trigger] e[i]).0@,
                e[i].1@,
                m,
                Some(d),
                a,
            ) == dim_in_range(e[i].0@, e[i].1@, m, Some(d), b) by {
                let name = e[i].0@;
                if let DefView::Multi(dims) = d {
                    if m.dom().contains(name) && m[name].len() > 0 && find_dim(dims, name) is Some {
                        let j = lemma_found_dim(dims, name);
                        lemma_dims_reads(dims, m, j, a, b);
                        lemma_selections_read(dims, dimensions@, now, j, a, b);
                        let x = dims[j].1;
                        assert(agree(a, b, reads_under(x, seq![m[name][0]]))) by {
                            if let DefView::TimeWindow(g) = x {
                                assert(reads_under(x, m[name])[0] == (m[name][0], g.fmt));
                            }
                        }
                        if let SelView::Range(from, to) = e[i].1@ {
                            lemma_agree_parts(
                                a,
                                b,
                                reads_under(x, seq![from, to]),
                                reads_under(x, own_keys(x, now)),
                            );
                            lemma_ends_read(x, from, to, m[name][0], a, b);
                        }
                    }
                }
            }
        },
        _ => {},
    }
}

fn put_reads(out: &mut Vec<(String, String)>, def: &PartitionsDefinition, keys: &Vec<String>)
    ensures
        asks_view(final(out)@) == asks_view(old(out)@) + reads_under(def@, texts(keys@)),
{
    let ghost before = asks_view(out@);
    let ghost all = reads_under(def@, texts(keys@));
    if let PartitionsDefinition::TimeWindow { grid } = def {
        let mut i: usize = 0;
        proof {
            assert(asks_view(out@) =~= before + all.take(0));
        }
        while i < keys.len()
            invariant
                i <= keys@.len(),
                all == reads_under(def@, texts(keys@)),
                *def == (PartitionsDefinition::TimeWindow { grid: *grid }),
                asks_view(out@) == before + all.take(i as int),
            decreases keys@.len() - i,
        {
            let ghost prev = asks_view(out@);
            out.push((keys[i].clone(), grid.fmt.clone()));
            proof {
                assert(texts(keys@)[i as int] == keys@[i as int]@);
                assert(def@ == DefView::TimeWindow(grid@));
                assert(all[i as int] == (keys@[i as int]@, grid.fmt@));
                assert(asks_view(out@) =~= prev.push(all[i as int]));
                assert(all.take(i + 1) =~= all.take(i as int).push(all[i as int]));
                assert(asks_view(out@) =~= before + all.take(i + 1));
            }
            i += 1;
        }
        proof {
            assert(all.take(i as int) =~= all);
        }
    }
    proof {
        assert(asks_view(out@) =~= before + all);
    }
}

impl PartitionsDefinition {
    fn put_key_reads(&self, key: &PyPartitionKey, out: &mut Vec<(String, String)>)
        requires
            self.wf(),
            key.wf(),
        ensures
            asks_view(final(out)@) == asks_view(old(out)@) + key_reads(self@, key@),
        decreases key,
    {
        let ghost before = asks_view(out@);
        match key {
            PyPartitionKey::Single { key: keys } => {
                put_reads(out, self, keys);
            },
            PyPartitionKey::Multi { keys } => {
                if let PartitionsDefinition::Multi { dimensions } = self {
                    let ghost dims = dims_of(dimensions@);
                    let ghost m = dims_view(keys@);
                    proof {
                        lemma_dims_of(dimensions@);
                        assert(m.dom() =~= keys@.dom());
                        assert(dims.take(0) =~= Seq::empty());
                        assert(before + dims_reads(dims.take(0), m) =~= before);
                    }
                    let mut i: usize = 0;
                    while i < dimensions.len()
                        invariant
                            i <= dimensions@.len(),
                            dims == dims_of(dimensions@),
                            m == dims_view(keys@),
                            m.dom() == keys@.dom(),
                            keys.wf(),
                            asks_view(out@) == before + dims_reads(dims.take(i as int), m),
                        decreases dimensions@.len() - i,
                    {
                        proof {
                            lemma_dims_of(dimensions@);
                            assert(dims.take(i + 1).drop_last() =~= dims.take(i as int));
                            assert(dims.take(i + 1).last() == dims[i as int]);
                            assert(dims[i as int] == (
                                dimensions@[i as int].0@,
                                def_view(dimensions@[i as int].1),
                            ));
                        }
                        if let Some(v) = keys.get(dimensions[i].0.as_str()) {
                            put_reads(out, &dimensions[i].1, v);
                        }
                        proof {
                            assert(asks_view(out@) =~= before + dims_reads(dims.take(i + 1), m));
                        }
                        i += 1;
                    }
                    proof {
                        lemma_dims_of(dimensions@);
                        assert(dims.take(i as int) =~= dims);
                    }
                } else {
                    proof {
                        assert(before + Seq::<Ask>::empty() =~= before);
                    }
                }
            },
            PyPartitionKey::Batch { members } => {
                let ghost ks = keys_view(members@);
                proof {
                    lemma_keys_view(members@);
                    assert(ks.take(0) =~= Seq::empty());
                    assert(before + members_reads(self@, ks.take(0)) =~= before);
                }
                let mut i: usize = 0;
                while i < members.len()
                    invariant
                        i <= members@.len(),
                        self.wf(),
                        key == (PyPartitionKey::Batch { members: *members }),
                        ks.len() == members@.len(),
                        forall|j: int| 0 <= j < members@.len() ==> key_wf(#[trigger] members@[j]),
                        forall|j: int|
                            0 <= j < members@.len() ==> #[trigger] ks[j] == key_view(members@[j]),
                        asks_view(out@) == before + members_reads(self@, ks.take(i as int)),
                    decreases members@.len() - i,
                {
                    proof {
                        lemma_member_decreases(*key, i as int);
                        assert(ks.take(i + 1).drop_last() =~= ks.take(i as int));
                        assert(ks.take(i + 1).last() == ks[i as int]);
                    }
                    self.put_key_reads(&members[i], out);
                    proof {
                        assert(asks_view(out@) =~= before + members_reads(self@, ks.take(i + 1)));
                    }
                    i += 1;
                }
                proof {
                    assert(ks.take(i as int) =~= ks);
                }
            },
        }
    }

    /// The keys, and the formats under which they are read, that a check of a key against
    /// the scheme reads.
    pub fn keys_to_read(&self, key: &PyPartitionKey) -> (r: Vec<(String, String)>)
        requires
            self.wf(),
            key.wf(),
        ensures
            asks_view(r@) == key_reads(self@, key@),
    {
        let mut out: Vec<(String, String)> = Vec::new();
        self.put_key_reads(key, &mut out);
        proof {
            assert(asks_view(out@) =~= key_reads(self@, key@));
        }
        out
    }
}

fn put_range_reads(
    out: &mut Vec<(String, String)>,
    def: &PartitionsDefinition,
    from_key: &String,
    to_key: &String,
    now: Moment,
)
    requires
        def.wf(),
        now.wf(),
    ensures
        asks_view(final(out)@) == asks_view(old(out)@) + selection_reads(
            def@,
            SelView::Range(from_key@, to_key@),
            now.at(),
        ),
{
    let ghost before = asks_view(out@);
    let mut ends: Vec<String> = Vec::new();
    ends.push(from_key.clone());
    ends.push(to_key.clone());
    proof {
        assert(texts(ends@) =~= seq![from_key@, to_key@]);
    }
    put_reads(out, def, &ends);
    let own = match def.enumerate_single_dim_keys_at(now) {
        Ok(keys) => keys,
        Err(_) => Vec::new(),
    };
    proof {
        assert(texts(own@) =~= own_keys(def@, now.at()));
    }
    put_reads(out, def, &own);
    proof {
        assert(asks_view(out@) =~= before + selection_reads(
            def@,
            SelView::Range(from_key@, to_key@),
            now.at(),
        ));
    }
}

impl PyPartitionKeyRange {
    /// The keys, and the formats under which they are read, that a check of the range
    /// against a scheme reads, and that resolving it reads: its ends and the keys of the
    /// scheme itself.
    pub fn keys_to_read(&self, def: &PartitionsDefinition, now: Moment) -> (r: Vec<
        (String, String),
    >)
        requires
            self.wf(),
            def.wf(),
            now.wf(),
        ensures
            asks_view(r@) == range_reads(*self, def@, now.at()),
    {
        let mut out: Vec<(String, String)> = Vec::new();
        proof {
            assert(asks_view(out@) =~= Seq::empty());
        }
        match &self.inner {
            PartitionKeyRangeInner::Single { from_key, to_key } => {
                put_range_reads(&mut out, def, from_key, to_key, now);
            },
            PartitionKeyRangeInner::Multi { dimensions: sels } => {
                if let PartitionsDefinition::Multi { dimensions } = def {
                    let ghost dims = dims_of(dimensions@);
                    proof {
                        lemma_dims_of(dimensions@);
                        assert(dims.take(0) =~= Seq::empty());
                    }
                    let mut i: usize = 0;
                    while i < dimensions.len()
                        invariant
                            i <= dimensions@.len(),
                            dims == dims_of(dimensions@),
                            forall|j: int|
                                0 <= j < dimensions@.len() ==> def_wf(
                                    (#[trigger] dimensions@[j]).1,
                                ),
                            sels.wf(),
                            sels_wf(sels@),
                            now.wf(),
                            asks_view(out@) == selections_reads(
                                dims.take(i as int),
                                sels@,
                                now.at(),
                            ),
                        decreases dimensions@.len() - i,
                    {
                        proof {
                            lemma_dims_of(dimensions@);
                            assert(dims.take(i + 1).drop_last() =~= dims.take(i as int));
                            assert(dims.take(i + 1).last() == dims[i as int]);
                            assert(dims[i as int] == (
                                dimensions@[i as int].0@,
                                def_view(dimensions@[i as int].1),
                            ));
                        }
                        match sels.get(dimensions[i].0.as_str()) {
                            Some(DimensionSelection::Range { from_key, to_key }) => {
                                put_range_reads(
                                    &mut out,
                                    &dimensions[i].1,
                                    from_key,
                                    to_key,
                                    now,
                                );
                            },
                            Some(DimensionSelection::Keys(keys)) => {
                                let listed = keys.iter();
                                put_reads(&mut out, &dimensions[i].1, &listed);
                            },
                            None => {},
                        }
                        proof {
                            assert(asks_view(out@) =~= selections_reads(
                                dims.take(i + 1),
                                sels@,
                                now.at(),
                            ));
                        }
                        i += 1;
                    }
                    proof {
                        lemma_dims_of(dimensions@);
                        assert(dims.take(i as int) =~= dims);
                    }
                }
            },
        }
        proof {
            assert(asks_view(out@) =~= range_reads(*self, def@, now.at()));
        }
        out
    }
}

} // verus!
