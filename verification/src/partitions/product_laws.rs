//! What holds of the combinations of dimension keys: they are distinct, and they are all
//! that pick one key for each dimension.
use vstd::prelude::*;
use crate::partitions::key::KeyView;
use crate::partitions::key_set::no_repeats;
use crate::partitions::listing_laws::{distinct_keyed, lemma_combo_parts, lifted};
use crate::partitions::product::{
    combo_at, combo_count, combo_key, combo_keys, combos, lemma_combo_at, lemma_combo_count,
    lemma_spread, DimKeys,
};

verus! {

/// Whether a dimension of a list has a name.
pub open spec fn named(dk: Seq<DimKeys>, n: Seq<char>) -> bool {
    exists|i: int| 0 <= i < dk.len() && (#[trigger] dk[i]).0 == n
}

/// Whether a map picks one key of each dimension, and nothing else.
pub open spec fn picks(dk: Seq<DimKeys>, m: Map<Seq<char>, Seq<char>>) -> bool {
    &&& forall|n: Seq<char>| #[trigger]
        m.dom().contains(n) <==> named(dk, n)
    &&& forall|i: int| 0 <= i < dk.len() ==> dk[i].1.contains(m[(#[trigger] dk[i]).0])
}

proof fn lemma_rest_distinct(dk: Seq<DimKeys>)
    requires
        distinct_keyed(dk),
        dk.len() > 0,
    ensures
        distinct_keyed(dk.drop_first()),
{
    let rest = dk.drop_first();
    assert forall|i: int, j: int| 0 <= i < j < rest.len() implies (#[trigger] rest[i]).0 != (
    #[trigger] rest[j]).0 by {
        assert(dk[i + 1].0 != dk[j + 1].0);
    }
}

/// Two combinations of different numbers differ.
proof fn lemma_combos_differ(dk: Seq<DimKeys>, a: int, b: int)
    requires
        distinct_keyed(dk),
        forall|i: int| 0 <= i < dk.len() ==> no_repeats((#[trigger] dk[i]).1),
        0 <= a < combo_count(dk),
        0 <= b < combo_count(dk),
        a != b,
    ensures
        combo_at(dk, a) != combo_at(dk, b),
    decreases dk.len(),
{
    if dk.len() > 0 {
        let rest = dk.drop_first();
        let n = combo_count(rest) as int;
        let m = dk[0].1.len() as int;
        let name = dk[0].0;
        assert(n > 0) by (nonlinear_arith)
            requires
                0 <= a < m * n,
                m >= 0,
                n >= 0,
        ;
        assert(0 <= a / n < m && 0 <= a % n < n && a == (a / n) * n + a % n) by (nonlinear_arith)
            requires
                0 <= a < m * n,
                n > 0,
        ;
        assert(0 <= b / n < m && 0 <= b % n < n && b == (b / n) * n + b % n) by (nonlinear_arith)
            requires
                0 <= b < m * n,
                n > 0,
        ;
        lemma_rest_distinct(dk);
        lemma_combo_parts(rest, a % n);
        lemma_combo_parts(rest, b % n);
        let x = combo_at(rest, a % n);
        let y = combo_at(rest, b % n);
        assert(no_repeats(dk[0].1));
        if a / n != b / n {
            assert(dk[0].1[a / n] != dk[0].1[b / n]);
            assert(combo_at(dk, a)[name] != combo_at(dk, b)[name]);
        } else {
            assert forall|i: int| 0 <= i < rest.len() implies no_repeats((#[trigger] rest[i]).1) by {
                assert(no_repeats(dk[i + 1].1));
            }
            lemma_combos_differ(rest, a % n, b % n);
            if x.dom().contains(name) || y.dom().contains(name) {
                let i = choose|i: int| 0 <= i < rest.len() && (#[trigger] rest[i]).0 == name;
                assert(dk[0].0 != dk[i + 1].0);
            }
            if combo_at(dk, a) == combo_at(dk, b) {
                assert(x =~= combo_at(dk, a).remove(name));
                assert(y =~= combo_at(dk, b).remove(name));
            }
        }
    }
}

/// A map is a combination exactly when it picks one key of each dimension.
pub proof fn lemma_combos_pick(dk: Seq<DimKeys>, m: Map<Seq<char>, Seq<char>>)
    requires
        distinct_keyed(dk),
    ensures
        combos(dk).contains(m) <==> picks(dk, m),
    decreases dk.len(),
{
    lemma_combo_count(dk);
    if combos(dk).contains(m) {
        let k = choose|k: int| 0 <= k < combos(dk).len() && combos(dk)[k] == m;
        lemma_combo_at(dk, k);
        lemma_combo_parts(dk, k);
    }
    if picks(dk, m) {
        if dk.len() == 0 {
            assert(m =~= Map::empty());
            assert(combos(dk)[0] == m);
        } else {
            let rest = dk.drop_first();
            let name = dk[0].0;
            let less = m.remove(name);
            lemma_rest_distinct(dk);
            assert(picks(rest, less)) by {
                assert forall|n: Seq<char>| #[trigger]
                    less.dom().contains(n) <==> exists|i: int|
                        0 <= i < rest.len() && (#[trigger] rest[i]).0 == n by {
                    if less.dom().contains(n) {
                        assert(m.dom().contains(n));
                        let i = choose|i: int| 0 <= i < dk.len() && (#[trigger] dk[i]).0 == n;
                        assert(rest[i - 1].0 == n);
                    }
                    if exists|i: int| 0 <= i < rest.len() && (#[trigger] rest[i]).0 == n {
                        let i = choose|i: int| 0 <= i < rest.len() && (#[trigger] rest[i]).0 == n;
                        assert(dk[i + 1].0 == n);
                        assert(dk[0].0 != dk[i + 1].0);
                        assert(m.dom().contains(n));
                    }
                }
                assert forall|i: int| 0 <= i < rest.len() implies rest[i].1.contains(
                    less[(#[trigger] rest[i]).0],
                ) by {
                    assert(dk[0].0 != dk[i + 1].0);
                    assert(dk[i + 1].1.contains(m[dk[i + 1].0]));
                }
            }
            lemma_combos_pick(rest, less);
            let all = combos(rest);
            let b = choose|b: int| 0 <= b < all.len() && all[b] == less;
            assert(dk[0].1.contains(m[dk[0].0]));
            let a = choose|a: int| 0 <= a < dk[0].1.len() && dk[0].1[a] == m[name];
            lemma_spread(name, dk[0].1, all);
            let at = a * all.len() + b;
            assert(m.dom().contains(name));
            assert(less.insert(name, m[name]) =~= m);
            assert(combos(dk)[at] == all[b].insert(name, dk[0].1[a]));
            assert(0 <= at < dk[0].1.len() * all.len()) by (nonlinear_arith)
                requires
                    0 <= a < dk[0].1.len(),
                    0 <= b < all.len(),
                    at == a * all.len() + b,
            ;
            assert(combos(dk)[at] == m);
        }
    }
}

/// The keys that stand for combinations are distinct where the keys of each dimension
/// are, and each gives every dimension one value.
pub proof fn lemma_combo_keys(dk: Seq<DimKeys>, a: int)
    requires
        distinct_keyed(dk),
        0 <= a < combo_keys(combos(dk)).len(),
    ensures
        combo_keys(combos(dk))[a] == KeyView::Multi(lifted(combo_at(dk, a))),
        picks(dk, combo_at(dk, a)),
        (forall|i: int| 0 <= i < dk.len() ==> no_repeats((#[trigger] dk[i]).1)) ==> forall|b: int|
            0 <= b < combo_keys(combos(dk)).len() && b != a ==> #[trigger] combo_keys(combos(dk))[b]
                != combo_keys(combos(dk))[a],
{
    let all = combo_keys(combos(dk));
    lemma_combo_count(dk);
    lemma_combo_at(dk, a);
    lemma_combo_parts(dk, a);
    let x = combo_at(dk, a);
    assert(all[a] == combo_key(combos(dk)[a]));
    assert(combo_key(x)->Multi_0 =~= lifted(x));
    if forall|i: int| 0 <= i < dk.len() ==> no_repeats((#[trigger] dk[i]).1) {
        assert forall|b: int| 0 <= b < all.len() && b != a implies #[trigger] all[b] != all[a] by {
            let y = combo_at(dk, b);
            lemma_combo_at(dk, b);
            assert(all[b] == combo_key(combos(dk)[b]));
            assert(combo_key(y)->Multi_0 =~= lifted(y));
            lemma_combos_differ(dk, a, b);
            if all[b] == all[a] {
                lemma_lifted(x, y);
            }
        }
    }
}

/// Maps that give the same single values are the same.
pub proof fn lemma_lifted(x: Map<Seq<char>, Seq<char>>, y: Map<Seq<char>, Seq<char>>)
    requires
        lifted(x) == lifted(y),
    ensures
        x == y,
{
    assert(lifted(x).dom() =~= x.dom());
    assert(lifted(y).dom() =~= y.dom());
    assert forall|n: Seq<char>| x.dom().contains(n) implies #[trigger] x[n] == y[n] by {
        assert(lifted(x)[n] == seq![x[n]]);
        assert(lifted(y)[n] == seq![y[n]]);
        assert(seq![x[n]][0] == seq![y[n]][0]);
    }
    assert(x =~= y);
}

/// A key stands for a combination exactly when it gives each dimension one of its keys,
/// and nothing else.
pub proof fn lemma_combo_key_listed(dk: Seq<DimKeys>, m: Map<Seq<char>, Seq<char>>)
    requires
        distinct_keyed(dk),
    ensures
        combo_keys(combos(dk)).contains(KeyView::Multi(lifted(m))) <==> picks(dk, m),
{
    let all = combo_keys(combos(dk));
    let k = KeyView::Multi(lifted(m));
    lemma_combos_pick(dk, m);
    lemma_combo_count(dk);
    if all.contains(k) {
        let a = choose|a: int| 0 <= a < all.len() && all[a] == k;
        lemma_combo_keys(dk, a);
        lemma_lifted(m, combo_at(dk, a));
    }
    if picks(dk, m) {
        let a = choose|a: int| 0 <= a < combos(dk).len() && combos(dk)[a] == m;
        lemma_combo_at(dk, a);
        lemma_combo_keys(dk, a);
        assert(all[a] == k);
    }
}

/// Whether a dimension has its partner in a list, and `keys` are those that both have.
pub open spec fn common_keyed(d: DimKeys, others: Seq<DimKeys>, keys: Seq<Seq<char>>) -> bool {
    &&& exists|l: int| 0 <= l < others.len() && (#[trigger] others[l]).0 == d.0
    &&& forall|l: int, k: Seq<char>|
        0 <= l < others.len() && (#[trigger] others[l]).0 == d.0 ==> (#[trigger] keys.contains(k)
            <==> d.1.contains(k) && others[l].1.contains(k))
}

/// A map picks one of the common keys of each dimension exactly when it picks one of both
/// lists.
pub proof fn lemma_common_picks(
    x: Seq<DimKeys>,
    y: Seq<DimKeys>,
    both: Seq<DimKeys>,
    c: Map<Seq<char>, Seq<char>>,
)
    requires
        both.len() == x.len(),
        forall|i: int| 0 <= i < both.len() ==> (#[trigger] both[i]).0 == x[i].0,
        forall|i: int| 0 <= i < x.len() ==> common_keyed(#[trigger] x[i], y, both[i].1),
        forall|j: int|
            0 <= j < y.len() ==> exists|i: int|
                0 <= i < x.len() && (#[trigger] x[i]).0 == (#[trigger] y[j]).0,
    ensures
        picks(both, c) <==> picks(x, c) && picks(y, c),
{
    assert forall|n: Seq<char>| #[trigger] named(x, n) <==> named(both, n) by {
        if named(both, n) {
            let i = choose|i: int| 0 <= i < both.len() && (#[trigger] both[i]).0 == n;
            assert(x[i].0 == n);
        }
        if named(x, n) {
            let i = choose|i: int| 0 <= i < x.len() && (#[trigger] x[i]).0 == n;
            assert(both[i].0 == n);
        }
    }
    assert forall|n: Seq<char>| #[trigger] named(x, n) <==> named(y, n) by {
        if named(x, n) {
            let i = choose|i: int| 0 <= i < x.len() && (#[trigger] x[i]).0 == n;
            assert(common_keyed(x[i], y, both[i].1));
        }
        if named(y, n) {
            let j = choose|j: int| 0 <= j < y.len() && (#[trigger] y[j]).0 == n;
            assert(exists|i: int| 0 <= i < x.len() && (#[trigger] x[i]).0 == y[j].0);
        }
    }
    assert(forall|n: Seq<char>|
        picks(both, c) ==> (#[trigger] c.dom().contains(n) <==> named(both, n)));
    assert forall|n: Seq<char>| picks(both, c) implies (#[trigger] c.dom().contains(n) <==> named(
        x,
        n,
    )) && (c.dom().contains(n) <==> named(y, n)) by {
        assert(named(x, n) <==> named(both, n));
    }
    assert forall|n: Seq<char>| picks(x, c) implies (#[trigger] c.dom().contains(n) <==> named(
        both,
        n,
    )) by {
        assert(named(x, n) <==> named(both, n));
    }
    if picks(both, c) {
        assert forall|i: int| 0 <= i < x.len() implies x[i].1.contains(c[(#[trigger] x[i]).0]) by {
            assert(both[i].0 == x[i].0);
            assert(both[i].1.contains(c[both[i].0]));
            assert(common_keyed(x[i], y, both[i].1));
            let l = choose|l: int| 0 <= l < y.len() && (#[trigger] y[l]).0 == x[i].0;
        }
        assert forall|j: int| 0 <= j < y.len() implies y[j].1.contains(c[(#[trigger] y[j]).0]) by {
            let i = choose|i: int| 0 <= i < x.len() && (#[trigger] x[i]).0 == y[j].0;
            assert(both[i].0 == x[i].0);
            assert(both[i].1.contains(c[both[i].0]));
            assert(common_keyed(x[i], y, both[i].1));
        }
    }
    if picks(x, c) && picks(y, c) {
        assert forall|i: int| 0 <= i < both.len() implies both[i].1.contains(
            c[(#[trigger] both[i]).0],
        ) by {
            assert(x[i].1.contains(c[x[i].0]));
            assert(common_keyed(x[i], y, both[i].1));
            let l = choose|l: int| 0 <= l < y.len() && (#[trigger] y[l]).0 == x[i].0;
            assert(y[l].1.contains(c[y[l].0]));
        }
    }
}

} // verus!
