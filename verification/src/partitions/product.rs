//! The cartesian product of dimension keys.
use vstd::prelude::*;
use crate::names::{pairs_map, NameMap};
use crate::partitions::key::{dims_view, KeyView, PyPartitionKey};
use crate::text::texts;

verus! {

/// A dimension and its keys.
pub type DimKeys = (Seq<char>, Seq<Seq<char>>);

/// The dimensions of a list and their keys.
pub open spec fn dim_keys_view(s: Seq<(String, Vec<String>)>) -> Seq<DimKeys> {
    s.map_values(|p: (String, Vec<String>)| (p.0@, texts(p.1@)))
}

/// Each of `rest` with `name` set to each of `keys`; the last key varies slowest.
pub open spec fn spread(
    name: Seq<char>,
    keys: Seq<Seq<char>>,
    rest: Seq<Map<Seq<char>, Seq<char>>>,
) -> Seq<Map<Seq<char>, Seq<char>>>
    decreases keys.len(),
{
    if keys.len() == 0 {
        Seq::empty()
    } else {
        spread(name, keys.drop_last(), rest) + with_name(name, keys.last(), rest)
    }
}

/// Each of `rest` with `name` set to `key`.
pub open spec fn with_name(
    name: Seq<char>,
    key: Seq<char>,
    rest: Seq<Map<Seq<char>, Seq<char>>>,
) -> Seq<Map<Seq<char>, Seq<char>>> {
    rest.map_values(|m: Map<Seq<char>, Seq<char>>| m.insert(name, key))
}

/// Every way to pick one key for each dimension. The first dimension varies
/// slowest; it also counts where two dimensions have one name.
pub open spec fn combos(dims: Seq<DimKeys>) -> Seq<Map<Seq<char>, Seq<char>>>
    decreases dims.len(),
{
    if dims.len() == 0 {
        seq![Map::empty()]
    } else {
        spread(dims[0].0, dims[0].1, combos(dims.drop_first()))
    }
}

/// The number of combinations is the product of the numbers of keys.
pub open spec fn combo_count(dims: Seq<DimKeys>) -> nat
    decreases dims.len(),
{
    if dims.len() == 0 {
        1
    } else {
        dims[0].1.len() * combo_count(dims.drop_first())
    }
}

/// The combinations of a product, by the numbers of their parts.
pub proof fn lemma_spread(
    name: Seq<char>,
    keys: Seq<Seq<char>>,
    rest: Seq<Map<Seq<char>, Seq<char>>>,
)
    ensures
        spread(name, keys, rest).len() == keys.len() * rest.len(),
        forall|a: int, b: int|
            0 <= a < keys.len() && 0 <= b < rest.len() ==> #[trigger] spread(name, keys, rest)[a
                * rest.len() + b] == #[trigger] rest[b].insert(name, keys[a]),
    decreases keys.len(),
{
    let n = rest.len() as int;
    if keys.len() > 0 {
        lemma_spread(name, keys.drop_last(), rest);
        assert((keys.len() - 1) * n + n == keys.len() * n) by (nonlinear_arith);
        assert forall|a: int, b: int| 0 <= a < keys.len() && 0 <= b < n implies #[trigger] spread(
            name,
            keys,
            rest,
        )[a * n + b] == #[trigger] rest[b].insert(name, keys[a]) by {
            let w = spread(name, keys.drop_last(), rest);
            if a < keys.len() - 1 {
                assert(a * n + b < (keys.len() - 1) * n) by (nonlinear_arith)
                    requires
                        0 <= a < keys.len() - 1,
                        0 <= b < n,
                ;
                assert(0 <= a * n) by (nonlinear_arith)
                    requires
                        0 <= a,
                        0 <= n,
                ;
                assert(w[a * n + b] == rest[b].insert(name, keys.drop_last()[a]));
            } else {
                assert(with_name(name, keys.last(), rest)[b] == rest[b].insert(name, keys[a]));
            }
        }
    } else {
        assert(0 * n == 0) by (nonlinear_arith);
    }
}

/// The number of combinations of keys.
pub proof fn lemma_combo_count(dims: Seq<DimKeys>)
    ensures
        combos(dims).len() == combo_count(dims),
    decreases dims.len(),
{
    if dims.len() > 0 {
        lemma_combo_count(dims.drop_first());
        lemma_spread(dims[0].0, dims[0].1, combos(dims.drop_first()));
    }
}

/// The combination number `k`, found by arithmetic: the key of a dimension is that
/// number `k / n`, where `n` counts the combinations of the dimensions behind it,
/// and the dimensions behind it have the combination number `k % n`.
pub open spec fn combo_at(dims: Seq<DimKeys>, k: int) -> Map<Seq<char>, Seq<char>>
    decreases dims.len(),
{
    if dims.len() == 0 {
        Map::empty()
    } else {
        let n = combo_count(dims.drop_first()) as int;
        combo_at(dims.drop_first(), k % n).insert(dims[0].0, dims[0].1[k / n])
    }
}

/// Arithmetic finds the combinations in the order of the product.
pub proof fn lemma_combo_at(dims: Seq<DimKeys>, k: int)
    requires
        0 <= k < combo_count(dims),
    ensures
        combos(dims)[k] == combo_at(dims, k),
    decreases dims.len(),
{
    if dims.len() > 0 {
        let rest = dims.drop_first();
        let n = combo_count(rest) as int;
        let m = dims[0].1.len() as int;
        lemma_combo_count(rest);
        lemma_spread(dims[0].0, dims[0].1, combos(rest));
        assert(n > 0) by (nonlinear_arith)
            requires
                0 <= k < m * n,
                m >= 0,
                n >= 0,
        ;
        assert(0 <= k / n < m && 0 <= k % n < n && k == (k / n) * n + k % n) by (nonlinear_arith)
            requires
                0 <= k < m * n,
                n > 0,
        ;
        lemma_combo_at(rest, k % n);
        let a = k / n;
        let b = k % n;
        assert(spread(dims[0].0, dims[0].1, combos(rest))[a * n + b] == combos(rest)[b].insert(
            dims[0].0,
            dims[0].1[a],
        ));
    }
}

/// The texts of the values of a map.
pub open spec fn name_texts(m: Map<Seq<char>, String>) -> Map<Seq<char>, Seq<char>> {
    m.map_values(|s: String| s@)
}

/// What a list of combinations stands for.
pub open spec fn combos_view(v: Seq<NameMap<String>>) -> Seq<Map<Seq<char>, Seq<char>>> {
    v.map_values(|m: NameMap<String>| name_texts(m@))
}

/// A copy of a map of texts.
fn copy_named(m: &NameMap<String>) -> (r: NameMap<String>)
    ensures
        r.entries@ == m.entries@,
{
    let mut out: Vec<(String, String)> = Vec::new();
    let mut i: usize = 0;
    while i < m.entries.len()
        invariant
            i <= m.entries@.len(),
            out@ == m.entries@.take(i as int),
        decreases m.entries@.len() - i,
    {
        out.push((m.entries[i].0.clone(), m.entries[i].1.clone()));
        i += 1;
    }
    proof {
        assert(m.entries@.take(i as int) =~= m.entries@);
    }
    NameMap { entries: out }
}

/// The product of the dimensions from number `from` on.
fn product_from(dim_keys: &[(String, Vec<String>)], from: usize) -> (r: Vec<NameMap<String>>)
    requires
        from <= dim_keys@.len(),
    ensures
        combos_view(r@) == combos(dim_keys_view(dim_keys@).skip(from as int)),
        forall|i: int| 0 <= i < r@.len() ==> (#[trigger] r@[i]).wf(),
    decreases dim_keys@.len() - from,
{
    let ghost dims = dim_keys_view(dim_keys@).skip(from as int);
    let mut out: Vec<NameMap<String>> = Vec::new();
    if from == dim_keys.len() {
        out.push(NameMap::new());
        proof {
            assert(name_texts(Map::<Seq<char>, String>::empty()) =~= Map::<
                Seq<char>,
                Seq<char>,
            >::empty());
            assert(combos_view(out@) =~= combos(dims));
        }
        return out;
    }
    let rest = product_from(dim_keys, from + 1);
    let ghost behind = combos(dims.drop_first());
    proof {
        assert(dims.drop_first() =~= dim_keys_view(dim_keys@).skip(from + 1));
        assert(dims[0] == (dim_keys@[from as int].0@, texts(dim_keys@[from as int].1@)));
    }
    let keys = &dim_keys[from].1;
    let mut a: usize = 0;
    proof {
        assert(texts(keys@).take(0) =~= Seq::empty());
        assert(combos_view(out@) =~= Seq::empty());
    }
    while a < keys.len()
        invariant
            from < dim_keys@.len(),
            keys@ == dim_keys@[from as int].1@,
            dims == dim_keys_view(dim_keys@).skip(from as int),
            dims[0] == (dim_keys@[from as int].0@, texts(keys@)),
            combos_view(rest@) == behind,
            forall|i: int| 0 <= i < rest@.len() ==> (#[trigger] rest@[i]).wf(),
            forall|i: int| 0 <= i < out@.len() ==> (#[trigger] out@[i]).wf(),
            a <= keys@.len(),
            combos_view(out@) == spread(dims[0].0, texts(keys@).take(a as int), behind),
        decreases keys@.len() - a,
    {
        let ghost done = combos_view(out@);
        let ghost layer = with_name(dims[0].0, texts(keys@)[a as int], behind);
        let mut b: usize = 0;
        proof {
            assert(done + layer.take(0) =~= done);
        }
        while b < rest.len()
            invariant
                from < dim_keys@.len(),
                keys@ == dim_keys@[from as int].1@,
                dims[0] == (dim_keys@[from as int].0@, texts(keys@)),
                combos_view(rest@) == behind,
                a < keys@.len(),
                layer == with_name(dims[0].0, texts(keys@)[a as int], behind),
                forall|i: int| 0 <= i < rest@.len() ==> (#[trigger] rest@[i]).wf(),
                forall|i: int| 0 <= i < out@.len() ==> (#[trigger] out@[i]).wf(),
                b <= rest@.len(),
                combos_view(out@) == done + layer.take(b as int),
            decreases rest@.len() - b,
        {
            let mut m = copy_named(&rest[b]);
            let ghost before = m@;
            m.insert(dim_keys[from].0.clone(), keys[a].clone());
            let ghost prev = combos_view(out@);
            let ghost e = m;
            out.push(m);
            proof {
                assert(name_texts(e@) =~= name_texts(before).insert(
                    dims[0].0,
                    texts(keys@)[a as int],
                ));
                assert(combos_view(rest@)[b as int] == name_texts(rest@[b as int]@));
                assert(layer[b as int] == name_texts(e@));
                assert(combos_view(out@) =~= prev.push(name_texts(e@)));
                assert(done + layer.take(b + 1) =~= (done + layer.take(b as int)).push(
                    layer[b as int],
                ));
            }
            b += 1;
        }
        proof {
            assert(layer.take(b as int) =~= layer) by {
                assert(behind.len() == rest@.len());
            }
            let w = texts(keys@).take(a + 1);
            assert(w.drop_last() =~= texts(keys@).take(a as int));
            assert(w.last() == texts(keys@)[a as int]);
        }
        a += 1;
    }
    proof {
        assert(texts(keys@).take(a as int) =~= texts(keys@));
    }
    out
}

/// Compute the cartesian product of dimension keys.
pub fn cartesian_product(dim_keys: &[(String, Vec<String>)]) -> (r: Vec<NameMap<String>>)
    ensures
        combos_view(r@) == combos(dim_keys_view(dim_keys@)),
        forall|i: int| 0 <= i < r@.len() ==> (#[trigger] r@[i]).wf(),
{
    proof {
        assert(dim_keys_view(dim_keys@).skip(0) =~= dim_keys_view(dim_keys@));
    }
    product_from(dim_keys, 0)
}

/// The key that picks one value for each dimension.
pub open spec fn combo_key(m: Map<Seq<char>, Seq<char>>) -> KeyView {
    KeyView::Multi(m.map_values(|v: Seq<char>| seq![v]))
}

/// The key of each combination of a list.
pub open spec fn combo_keys(v: Seq<Map<Seq<char>, Seq<char>>>) -> Seq<KeyView> {
    v.map_values(|m: Map<Seq<char>, Seq<char>>| combo_key(m))
}

/// The key of a combination.
pub fn key_of_combo(m: &NameMap<String>) -> (r: PyPartitionKey)
    requires
        m.wf(),
    ensures
        r.wf(),
        r is Multi,
        r@ == combo_key(name_texts(m@)),
{
    let mut out: Vec<(String, Vec<String>)> = Vec::new();
    let mut i: usize = 0;
    let ghost s = m.entries@;
    proof {
        assert(s.take(0) =~= Seq::empty());
        assert(dims_view(pairs_map(out@)) =~= name_texts(pairs_map(s.take(0))).map_values(
            |v: Seq<char>| seq![v],
        ));
    }
    while i < m.entries.len()
        invariant
            s == m.entries@,
            i <= s.len(),
            out@.len() == i,
            forall|j: int| 0 <= j < i ==> (#[trigger] out@[j]).0@ == s[j].0@,
            dims_view(pairs_map(out@)) == name_texts(pairs_map(s.take(i as int))).map_values(
                |v: Seq<char>| seq![v],
            ),
        decreases s.len() - i,
    {
        let mut one: Vec<String> = Vec::new();
        one.push(m.entries[i].1.clone());
        let p = (m.entries[i].0.clone(), one);
        proof {
            assert(texts(one@) =~= seq![s[i as int].1@]);
            crate::partitions::key::lemma_dims_push(out@, p);
            assert(s.take(i + 1).drop_last() =~= s.take(i as int));
            assert(name_texts(pairs_map(s.take(i + 1))) =~= name_texts(
                pairs_map(s.take(i as int)),
            ).insert(s[i as int].0@, s[i as int].1@));
            assert(name_texts(pairs_map(s.take(i + 1))).map_values(|v: Seq<char>| seq![v])
                =~= name_texts(pairs_map(s.take(i as int))).map_values(
                |v: Seq<char>| seq![v],
            ).insert(s[i as int].0@, seq![s[i as int].1@]));
        }
        out.push(p);
        i += 1;
    }
    proof {
        assert(s.take(s.len() as int) =~= s);
        assert forall|a: int, b: int| 0 <= a < b < out@.len() implies (#[trigger] out@[a]).0@ != (
        #[trigger] out@[b]).0@ by {
            assert(s[a].0@ != s[b].0@);
        }
    }
    PyPartitionKey::Multi { keys: NameMap { entries: out } }
}

} // verus!
