//! The single-valued members of a batched key, and the display form of keys.
use vstd::prelude::*;
use vstd::string::*;
use crate::names::NameMap;
use crate::partitions::definition::{keys_of_combos, single_views};
use crate::partitions::key::{
    dims_view, key_view, key_wf, keys_view, lemma_keys_view, lemma_member_decreases, KeyView,
    PyPartitionKey,
};
use crate::partitions::product::{cartesian_product, combo_keys, combos, dim_keys_view, DimKeys};
use crate::text::{copy_texts, join_texts, joined, say3, set_in_order, texts};

verus! {

/// The dimensions of a key and their values, in the order of `names`.
pub open spec fn dims_by(m: Map<Seq<char>, Seq<Seq<char>>>, names: Seq<Seq<char>>) -> Seq<
    DimKeys,
> {
    names.map_values(|n: Seq<char>| (n, m[n]))
}

/// The dimensions of a key and their values, in the order of their names.
pub open spec fn ordered_dims(m: Map<Seq<char>, Seq<Seq<char>>>) -> Seq<DimKeys> {
    dims_by(m, set_in_order(m.dom()))
}

/// The single-valued keys that a key stands for: one for each value of a single
/// dimension, one for each combination of the values of several dimensions, and
/// those of each member of a batch.
pub open spec fn members_of(k: KeyView) -> Seq<KeyView>
    decreases k,
{
    match k {
        KeyView::Single(keys) => single_views(keys),
        KeyView::Multi(m) => combo_keys(combos(ordered_dims(m))),
        KeyView::Batch(keys) => members_of_all(keys),
    }
}

/// The single-valued keys of each key of a list, one behind the other.
pub open spec fn members_of_all(s: Seq<KeyView>) -> Seq<KeyView>
    decreases s,
{
    if s.len() == 0 {
        Seq::empty()
    } else {
        members_of_all(s.drop_last()) + members_of(s.last())
    }
}

/// The display form of one dimension.
pub open spec fn dim_display(d: DimKeys) -> Seq<char> {
    d.0 + "="@ + joined(d.1, ","@)
}

/// The display form of each dimension of a list.
pub open spec fn dims_display(dims: Seq<DimKeys>) -> Seq<Seq<char>> {
    dims.map_values(|d: DimKeys| dim_display(d))
}

/// The display form of a key: the first text of a single dimension, or
/// `dim=val|dim=val` in the order of the names of the dimensions.
pub open spec fn display_of(k: KeyView) -> Seq<char> {
    match k {
        KeyView::Single(keys) => if keys.len() == 0 {
            Seq::empty()
        } else {
            keys[0]
        },
        KeyView::Multi(m) => joined(dims_display(ordered_dims(m)), "|"@),
        KeyView::Batch(_) => Seq::empty(),
    }
}

/// The dimensions of a map, in the order of their names.
fn dims_in_order(keys: &NameMap<Vec<String>>) -> (r: Vec<(String, Vec<String>)>)
    requires
        keys.wf(),
    ensures
        dim_keys_view(r@) == ordered_dims(dims_view(keys@)),
{
    let names = keys.sorted_names();
    let ghost m = dims_view(keys@);
    let ghost order = set_in_order(m.dom());
    proof {
        assert(m.dom() =~= keys@.dom());
    }
    let mut out: Vec<(String, Vec<String>)> = Vec::new();
    let mut i: usize = 0;
    proof {
        assert(dim_keys_view(out@) =~= dims_by(m, order.take(0)));
    }
    while i < names.len()
        invariant
            texts(names@) == order,
            m == dims_view(keys@),
            forall|j: int|
                0 <= j < names@.len() ==> keys@.dom().contains((#[trigger] names@[j])@),
            i <= names@.len(),
            dim_keys_view(out@) == dims_by(m, order.take(i as int)),
        decreases names@.len() - i,
    {
        proof {
            assert(order[i as int] == names@[i as int]@);
        }
        if let Some(v) = keys.get(names[i].as_str()) {
            let ghost prev = dim_keys_view(out@);
            out.push((names[i].clone(), copy_texts(v)));
            proof {
                assert(dim_keys_view(out@) =~= prev.push((order[i as int], m[order[i as int]])));
                assert(dims_by(m, order.take(i + 1)) =~= dims_by(m, order.take(i as int)).push(
                    (order[i as int], m[order[i as int]]),
                ));
            }
        }
        i += 1;
    }
    proof {
        assert(order.take(i as int) =~= order);
    }
    out
}

impl PyPartitionKey {
    /// Expand a possibly-batched key into its individual single-valued members.
    pub fn members(&self) -> (r: Vec<PyPartitionKey>)
        requires
            self.wf(),
        ensures
            keys_view(r@) == members_of(self@),
            forall|i: int| 0 <= i < r@.len() ==> (#[trigger] r@[i]).wf(),
            forall|i: int| 0 <= i < r@.len() ==> !((#[trigger] r@[i]) is Batch),
        decreases self,
    {
        let mut out: Vec<PyPartitionKey> = Vec::new();
        match self {
            PyPartitionKey::Single { key } => {
                let mut i: usize = 0;
                while i < key.len()
                    invariant
                        i <= key@.len(),
                        out@.len() == i,
                        forall|j: int| 0 <= j < i ==> (#[trigger] out@[j]).wf(),
                        forall|j: int| 0 <= j < i ==> !((#[trigger] out@[j]) is Batch),
                        forall|j: int|
                            0 <= j < i ==> (#[trigger] out@[j])@ == single_views(texts(key@))[j],
                    decreases key@.len() - i,
                {
                    out.push(PyPartitionKey::of(key[i].clone()));
                    i += 1;
                }
                proof {
                    lemma_keys_view(out@);
                    assert(keys_view(out@) =~= single_views(texts(key@)));
                }
            },
            PyPartitionKey::Multi { keys } => {
                let dims = dims_in_order(keys);
                let found = cartesian_product(dims.as_slice());
                return keys_of_combos(&found);
            },
            PyPartitionKey::Batch { members } => {
                let mut i: usize = 0;
                let ghost ks = keys_view(members@);
                proof {
                    lemma_keys_view(members@);
                    assert(ks.take(0) =~= Seq::empty());
                    assert(keys_view(out@) =~= Seq::empty());
                }
                while i < members.len()
                    invariant
                        self == (PyPartitionKey::Batch { members: *members }),
                        forall|j: int| 0 <= j < members@.len() ==> key_wf(#[trigger] members@[j]),
                        i <= members@.len(),
                        forall|j: int| 0 <= j < out@.len() ==> (#[trigger] out@[j]).wf(),
                        forall|j: int| 0 <= j < out@.len() ==> !((#[trigger] out@[j]) is Batch),
                        ks.len() == members@.len(),
                        forall|j: int|
                            0 <= j < members@.len() ==> #[trigger] ks[j] == key_view(members@[j]),
                        keys_view(out@) == members_of_all(ks.take(i as int)),
                    decreases members@.len() - i,
                {
                    proof {
                        lemma_member_decreases(*self, i as int);
                        assert(ks.take(i + 1).drop_last() =~= ks.take(i as int));
                        assert(ks.take(i + 1).last() == ks[i as int]);
                    }
                    let mut more = members[i].members();
                    let ghost a = out@;
                    let ghost b = more@;
                    out.append(&mut more);
                    proof {
                        lemma_keys_view(a);
                        lemma_keys_view(b);
                        lemma_keys_view(out@);
                        assert(keys_view(out@) =~= keys_view(a) + keys_view(b));
                    }
                    i += 1;
                }
                proof {
                    assert(ks.take(i as int) =~= ks);
                }
            },
        }
        out
    }

    /// The form of a key for display, and for reading it back.
    pub fn display(&self) -> (r: String)
        requires
            self.wf(),
            !(self is Batch),
        ensures
            r@ == display_of(self@),
    {
        match self {
            PyPartitionKey::Single { key } => {
                if key.len() == 0 {
                    String::new()
                } else {
                    key[0].clone()
                }
            },
            PyPartitionKey::Multi { keys } => {
                let dims = dims_in_order(keys);
                let ghost ds = ordered_dims(dims_view(keys@));
                let mut out: Vec<String> = Vec::new();
                let mut i: usize = 0;
                while i < dims.len()
                    invariant
                        dim_keys_view(dims@) == ds,
                        i <= dims@.len(),
                        texts(out@) == dims_display(ds.take(i as int)),
                    decreases dims@.len() - i,
                {
                    let s = say3(
                        dims[i].0.as_str(),
                        "=",
                        join_texts(&dims[i].1, ",").as_str(),
                    );
                    let ghost prev = texts(out@);
                    let ghost e = s@;
                    out.push(s);
                    proof {
                        assert(ds[i as int] == (dims@[i as int].0@, texts(dims@[i as int].1@)));
                        assert(texts(out@) =~= prev.push(e));
                        assert(dims_display(ds.take(i + 1)) =~= dims_display(
                            ds.take(i as int),
                        ).push(e));
                    }
                    i += 1;
                }
                proof {
                    assert(ds.take(i as int) =~= ds);
                }
                join_texts(&out, "|")
            },
            PyPartitionKey::Batch { .. } => String::new(),
        }
    }
}

} // verus!
