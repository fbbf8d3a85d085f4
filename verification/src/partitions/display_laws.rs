//! The display form of a key tells it apart from every other key.
use vstd::prelude::*;
use crate::partitions::key::KeyView;
use crate::partitions::members::{dim_display, dims_display, display_of, ordered_dims};
use crate::partitions::product::DimKeys;
use crate::text::{
    first_wanted, joined, lemma_sorted_lists_set, lemma_set_in_order, lists_set, reserved_chars,
    set_in_order, sorted_texts,
};

verus! {

/// Whether a text holds none of the characters that the display form uses itself.
pub open spec fn unreserved(t: Seq<char>) -> bool {
    first_wanted(t, reserved_chars()) is None
}

/// Whether a key can be shown: one text of a single dimension, or some values for each
/// of some dimensions, all free of the characters that the display form uses itself.
pub open spec fn showable(k: KeyView) -> bool {
    match k {
        KeyView::Single(keys) => keys.len() == 1 && unreserved(keys[0]),
        KeyView::Multi(m) => {
            &&& m.dom().finite()
            &&& m.dom().len() > 0
            &&& forall|n: Seq<char>| #[trigger]
                m.dom().contains(n) ==> unreserved(n) && m[n].len() > 0 && forall|i: int|
                    0 <= i < m[n].len() ==> unreserved(#[trigger] m[n][i])
        },
        KeyView::Batch(_) => false,
    }
}

proof fn lemma_unreserved(t: Seq<char>)
    requires
        unreserved(t),
    ensures
        !t.contains('|'),
        !t.contains(','),
        !t.contains('='),
{
    reveal_with_fuel(first_wanted, 4);
    assert(reserved_chars().drop_first() =~= seq![',', '=']);
    assert(seq![',', '='].drop_first() =~= seq!['=']);
    assert(seq!['='].drop_first() =~= Seq::<char>::empty());
}

proof fn lemma_concat_free(a: Seq<char>, b: Seq<char>, c: char)
    requires
        !a.contains(c),
        !b.contains(c),
    ensures
        !(a + b).contains(c),
{
    if (a + b).contains(c) {
        let i = choose|i: int| 0 <= i < (a + b).len() && (a + b)[i] == c;
        if i < a.len() {
            assert(a[i] == c);
        } else {
            assert(b[i - a.len()] == c);
        }
    }
}

proof fn lemma_joined_free(v: Seq<Seq<char>>, sep: char, c: char)
    requires
        sep != c,
        forall|i: int| 0 <= i < v.len() ==> !(#[trigger] v[i]).contains(c),
    ensures
        !joined(v, seq![sep]).contains(c),
    decreases v.len(),
{
    if v.len() > 1 {
        let w = v.drop_last();
        assert forall|i: int| 0 <= i < w.len() implies !(#[trigger] w[i]).contains(c) by {
            assert(w[i] == v[i]);
        }
        lemma_joined_free(w, sep, c);
        assert(!v[v.len() - 1].contains(c));
        lemma_concat_free(joined(w, seq![sep]), seq![sep], c);
        lemma_concat_free(joined(w, seq![sep]) + seq![sep], v.last(), c);
    } else if v.len() == 1 {
        assert(!v[0].contains(c));
    }
}

/// What was joined by a character that occurs in none of the texts can be told from
/// the result.
pub proof fn lemma_joined_apart(v: Seq<Seq<char>>, w: Seq<Seq<char>>, c: char)
    requires
        v.len() > 0,
        w.len() > 0,
        forall|i: int| 0 <= i < v.len() ==> !(#[trigger] v[i]).contains(c),
        forall|i: int| 0 <= i < w.len() ==> !(#[trigger] w[i]).contains(c),
        joined(v, seq![c]) == joined(w, seq![c]),
    ensures
        v == w,
    decreases v.len(),
{
    let s = joined(v, seq![c]);
    if v.len() == 1 && w.len() == 1 {
        assert(v =~= w);
    } else if v.len() == 1 {
        let i = joined(w.drop_last(), seq![c]).len();
        assert(s[i as int] == c);
        assert(!v[0].contains(c));
    } else if w.len() == 1 {
        let i = joined(v.drop_last(), seq![c]).len();
        assert(s[i as int] == c);
        assert(!w[0].contains(c));
    } else {
        let jv = joined(v.drop_last(), seq![c]);
        let jw = joined(w.drop_last(), seq![c]);
        let i = jv.len() as int;
        let j = jw.len() as int;
        assert(s == jv + seq![c] + v.last());
        assert(s == jw + seq![c] + w.last());
        assert(s[i] == c);
        assert(s[j] == c);
        assert(!v[v.len() - 1].contains(c));
        assert(!w[w.len() - 1].contains(c));
        if i < j {
            assert((jv + seq![c] + v.last())[j] == v.last()[j - i - 1]);
            assert(v.last().contains(c));
        }
        if j < i {
            assert((jw + seq![c] + w.last())[i] == w.last()[i - j - 1]);
            assert(w.last().contains(c));
        }
        assert(jv =~= s.take(i));
        assert(jw =~= s.take(j));
        assert(v.last() =~= s.skip(i + 1));
        assert(w.last() =~= s.skip(j + 1));
        assert forall|k: int| 0 <= k < v.drop_last().len() implies !(
        #[trigger] v.drop_last()[k]).contains(c) by {
            assert(v.drop_last()[k] == v[k]);
        }
        assert forall|k: int| 0 <= k < w.drop_last().len() implies !(
        #[trigger] w.drop_last()[k]).contains(c) by {
            assert(w.drop_last()[k] == w[k]);
        }
        lemma_joined_apart(v.drop_last(), w.drop_last(), c);
        assert(v =~= v.drop_last().push(v.last()));
        assert(w =~= w.drop_last().push(w.last()));
    }
}

/// Whether the name and the values of a dimension can be shown.
spec fn showable_dim(d: DimKeys) -> bool {
    unreserved(d.0) && d.1.len() > 0 && forall|i: int|
        0 <= i < d.1.len() ==> unreserved(#[trigger] d.1[i])
}

proof fn lemma_dim_display(d: DimKeys)
    requires
        showable_dim(d),
    ensures
        !dim_display(d).contains('|'),
        dim_display(d).contains('='),
        dim_display(d).len() > d.0.len(),
        dim_display(d)[d.0.len() as int] == '=',
{
    reveal_strlit("=");
    reveal_strlit(",");
    assert("="@ =~= seq!['=']);
    assert(","@ =~= seq![',']);
    lemma_unreserved(d.0);
    assert forall|i: int| 0 <= i < d.1.len() implies !(#[trigger] d.1[i]).contains('|') by {
        lemma_unreserved(d.1[i]);
    }
    lemma_joined_free(d.1, ',', '|');
    lemma_concat_free(d.0, "="@, '|');
    lemma_concat_free(d.0 + "="@, joined(d.1, ","@), '|');
    assert(dim_display(d)[d.0.len() as int] == '=');
}

proof fn lemma_dim_apart(a: DimKeys, b: DimKeys)
    requires
        showable_dim(a),
        showable_dim(b),
        dim_display(a) == dim_display(b),
    ensures
        a == b,
{
    reveal_strlit("=");
    reveal_strlit(",");
    assert("="@ =~= seq!['=']);
    assert(","@ =~= seq![',']);
    lemma_dim_display(a);
    lemma_dim_display(b);
    lemma_unreserved(a.0);
    lemma_unreserved(b.0);
    let s = dim_display(a);
    let i = a.0.len() as int;
    let j = b.0.len() as int;
    if i < j {
        assert(s[i] == b.0[i]);
        assert(b.0.contains('='));
    }
    if j < i {
        assert(s[j] == a.0[j]);
        assert(a.0.contains('='));
    }
    assert(a.0 =~= s.take(i));
    assert(b.0 =~= s.take(j));
    assert(joined(a.1, ","@) =~= s.skip(i + 1));
    assert(joined(b.1, ","@) =~= s.skip(j + 1));
    assert forall|k: int| 0 <= k < a.1.len() implies !(#[trigger] a.1[k]).contains(',') by {
        lemma_unreserved(a.1[k]);
    }
    assert forall|k: int| 0 <= k < b.1.len() implies !(#[trigger] b.1[k]).contains(',') by {
        lemma_unreserved(b.1[k]);
    }
    lemma_joined_apart(a.1, b.1, ',');
}

/// A finite set can be listed in order.
pub proof fn lemma_listed_in_order(s: Set<Seq<char>>)
    requires
        s.finite(),
    ensures
        lists_set(set_in_order(s), s),
        set_in_order(s).len() == s.len(),
{
    let v = lemma_listable(s);
    lemma_sorted_lists_set(v, s);
    let w = sorted_texts(v);
    lemma_order_holds(v, s);
    lemma_set_in_order(w, s);
    assert(w.no_duplicates());
    w.unique_seq_to_set();
    assert(w.to_set() =~= s);
}

proof fn lemma_order_holds(v: Seq<Seq<char>>, s: Set<Seq<char>>)
    requires
        v.no_duplicates(),
        forall|k: Seq<char>| #[trigger] v.contains(k) <==> s.contains(k),
    ensures
        lists_set(sorted_texts(v), s),
{
    broadcast use vstd::seq_lib::group_to_multiset_ensures;

    let w = sorted_texts(v);
    crate::text::lemma_sorted_texts(v);
    assert forall|k: Seq<char>| #[trigger] w.contains(k) <==> s.contains(k) by {
        assert(w.contains(k) <==> w.to_multiset().count(k) > 0);
        assert(v.contains(k) <==> v.to_multiset().count(k) > 0);
    }
    v.lemma_multiset_has_no_duplicates();
    assert(forall|k: Seq<char>| w.to_multiset().contains(k) ==> w.to_multiset().count(k) == 1);
    w.lemma_multiset_has_no_duplicates_conv();
}

proof fn lemma_listable(s: Set<Seq<char>>) -> (v: Seq<Seq<char>>)
    requires
        s.finite(),
    ensures
        v.no_duplicates(),
        forall|k: Seq<char>| #[trigger] v.contains(k) <==> s.contains(k),
    decreases s.len(),
{
    if s.len() == 0 {
        assert forall|k: Seq<char>| !s.contains(k) by {
            if s.contains(k) {
                assert(s.remove(k).len() + 1 == s.len());
            }
        }
        Seq::empty()
    } else {
        let x = s.choose();
        let w = lemma_listable(s.remove(x));
        let v = w.push(x);
        assert forall|k: Seq<char>| #[trigger] v.contains(k) <==> s.contains(k) by {
            if v.contains(k) {
                let i = choose|i: int| 0 <= i < v.len() && v[i] == k;
                if i < w.len() {
                    assert(w[i] == k);
                    assert(w.contains(k));
                }
            }
            if s.contains(k) {
                if k == x {
                    assert(v[w.len() as int] == k);
                } else {
                    assert(w.contains(k));
                    let i = choose|i: int| 0 <= i < w.len() && w[i] == k;
                    assert(v[i] == k);
                }
            }
        }
        assert(!w.contains(x));
        assert forall|i: int, j: int| 0 <= i < j < v.len() implies v[i] != v[j] by {
            if j == w.len() {
                assert(w.contains(w[i]));
            }
        }
        v
    }
}

proof fn lemma_ordered_dims(m: Map<Seq<char>, Seq<Seq<char>>>)
    requires
        showable(KeyView::Multi(m)),
    ensures
        ordered_dims(m).len() == m.dom().len(),
        lists_set(set_in_order(m.dom()), m.dom()),
        forall|i: int| 0 <= i < ordered_dims(m).len() ==> showable_dim(#[trigger] ordered_dims(m)[i]),
        forall|i: int|
            0 <= i < ordered_dims(m).len() ==> !(#[trigger] dims_display(
                ordered_dims(m),
            )[i]).contains('|'),
{
    lemma_listed_in_order(m.dom());
    let order = set_in_order(m.dom());
    let dims = ordered_dims(m);
    assert forall|i: int| 0 <= i < dims.len() implies showable_dim(#[trigger] dims[i]) by {
        assert(order.contains(order[i]));
        assert(m.dom().contains(order[i]));
    }
    assert forall|i: int| 0 <= i < dims.len() implies !(#[trigger] dims_display(dims)[i]).contains(
        '|',
    ) by {
        assert(showable_dim(dims[i]));
        lemma_dim_display(dims[i]);
    }
}

/// Two keys with one display form are the same key, so that a key can be told from its
/// display form.
pub proof fn lemma_display_apart(a: KeyView, b: KeyView)
    requires
        showable(a),
        showable(b),
        display_of(a) == display_of(b),
    ensures
        a == b,
{
    reveal_strlit("|");
    assert("|"@ =~= seq!['|']);
    match (a, b) {
        (KeyView::Single(x), KeyView::Single(y)) => {
            assert(x =~= y);
        },
        (KeyView::Multi(x), KeyView::Multi(y)) => {
            lemma_ordered_dims(x);
            lemma_ordered_dims(y);
            let dx = ordered_dims(x);
            let dy = ordered_dims(y);
            lemma_joined_apart(dims_display(dx), dims_display(dy), '|');
            assert(dx.len() == dims_display(dx).len());
            assert(dy.len() == dims_display(dy).len());
            assert forall|i: int| 0 <= i < dx.len() implies dx[i] == dy[i] by {
                assert(showable_dim(dx[i]));
                assert(showable_dim(dy[i]));
                assert(dims_display(dx)[i] == dim_display(dx[i]));
                assert(dims_display(dy)[i] == dim_display(dy[i]));
                lemma_dim_apart(dx[i], dy[i]);
            }
            let ox = set_in_order(x.dom());
            let oy = set_in_order(y.dom());
            assert forall|n: Seq<char>| x.dom().contains(n) <==> y.dom().contains(n) by {
                assert(ox.contains(n) <==> oy.contains(n)) by {
                    assert(ox =~= oy) by {
                        assert forall|i: int| 0 <= i < ox.len() implies ox[i] == oy[i] by {
                            assert(dx[i].0 == dy[i].0);
                        }
                    }
                }
            }
            assert forall|n: Seq<char>| #[trigger] x.dom().contains(n) implies x[n] == y[n] by {
                assert(ox.contains(n));
                let i = choose|i: int| 0 <= i < ox.len() && ox[i] == n;
                assert(dx[i] == (n, x[n]));
                assert(dy[i] == (oy[i], y[oy[i]]));
            }
            assert(x =~= y);
        },
        (KeyView::Single(x), KeyView::Multi(y)) => {
            lemma_single_not_multi(x, y);
        },
        (KeyView::Multi(x), KeyView::Single(y)) => {
            lemma_single_not_multi(y, x);
        },
        _ => {},
    }
}

proof fn lemma_single_not_multi(x: Seq<Seq<char>>, y: Map<Seq<char>, Seq<Seq<char>>>)
    requires
        showable(KeyView::Single(x)),
        showable(KeyView::Multi(y)),
    ensures
        display_of(KeyView::Single(x)) != display_of(KeyView::Multi(y)),
{
    lemma_ordered_dims(y);
    let d = ordered_dims(y);
    assert(showable_dim(d[0]));
    lemma_dim_display(d[0]);
    lemma_unreserved(x[0]);
    lemma_joined_starts(dims_display(d), "|"@);
    assert(dims_display(d)[0] == dim_display(d[0]));
    let shown = display_of(KeyView::Multi(y));
    let i = d[0].0.len() as int;
    assert(shown[i] == '=');
    assert(shown.contains('='));
}

proof fn lemma_joined_starts(v: Seq<Seq<char>>, sep: Seq<char>)
    requires
        v.len() > 0,
    ensures
        joined(v, sep).len() >= v[0].len(),
        forall|i: int| 0 <= i < v[0].len() ==> joined(v, sep)[i] == v[0][i],
    decreases v.len(),
{
    if v.len() > 1 {
        lemma_joined_starts(v.drop_last(), sep);
        assert(v.drop_last()[0] == v[0]);
    }
}

} // verus!
