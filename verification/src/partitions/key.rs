//! Partition keys: one dimension, several dimensions, or a batch of keys.
use vstd::prelude::*;
use vstd::string::*;
use crate::errors::{Fault, FaultKind};
use crate::names::{
    distinct_names, lemma_pairs_dom, lemma_pairs_len, lemma_pairs_value, pair_names, pairs_map,
    NameMap,
};
use crate::text::{
    copy_texts, join_texts, joined, quoted, quoted_list, quoted_list_text, quoted_text, same_texts,
    say3, set_in_order, sort_texts, sorted_texts, texts,
};

verus! {

/// A partition key.
#[derive(Debug)]
pub enum PyPartitionKey {
    /// One or more keys of a single dimension.
    Single { key: Vec<String> },
    /// One or more keys for each of several dimensions.
    Multi { keys: NameMap<Vec<String>> },
    /// A batch of keys.
    Batch { members: Vec<PyPartitionKey> },
}

/// What a partition key stands for.
pub enum KeyView {
    Single(Seq<Seq<char>>),
    Multi(Map<Seq<char>, Seq<Seq<char>>>),
    Batch(Seq<KeyView>),
}

/// The texts of each value list of a map.
pub open spec fn dims_view(m: Map<Seq<char>, Vec<String>>) -> Map<Seq<char>, Seq<Seq<char>>> {
    m.map_values(|v: Vec<String>| texts(v@))
}

/// What a key stands for.
pub open spec fn key_view(k: PyPartitionKey) -> KeyView
    decreases k,
{
    match k {
        PyPartitionKey::Single { key } => KeyView::Single(texts(key@)),
        PyPartitionKey::Multi { keys } => KeyView::Multi(dims_view(keys@)),
        PyPartitionKey::Batch { members: keys } => KeyView::Batch(keys_view(keys@)),
    }
}

/// What each key of a list stands for.
pub open spec fn keys_view(s: Seq<PyPartitionKey>) -> Seq<KeyView>
    decreases s,
{
    if s.len() == 0 {
        Seq::empty()
    } else {
        keys_view(s.drop_last()).push(key_view(s.last()))
    }
}

/// The dimension names of every key of a list are distinct within the key.
pub open spec fn key_wf(k: PyPartitionKey) -> bool
    decreases k,
{
    match k {
        PyPartitionKey::Single { .. } => true,
        PyPartitionKey::Multi { keys } => keys.wf(),
        PyPartitionKey::Batch { members: keys } => keys_wf(keys@),
    }
}

/// Every key of a list is well formed.
pub open spec fn keys_wf(s: Seq<PyPartitionKey>) -> bool
    decreases s,
{
    s.len() == 0 || (keys_wf(s.drop_last()) && key_wf(s.last()))
}

/// The members of a batch are smaller than the batch.
pub proof fn lemma_member_decreases(k: PyPartitionKey, i: int)
    requires
        k is Batch,
        0 <= i < k->members@.len(),
    ensures
        decreases_to!(k => k->members@[i]),
{
    assert(decreases_to!(k => k->members));
    assert(decreases_to!(k->members => k->members@));
    assert(decreases_to!(k->members@ => k->members@[i]));
}

/// The views of a list of keys, by position.
pub proof fn lemma_keys_view(s: Seq<PyPartitionKey>)
    ensures
        keys_view(s).len() == s.len(),
        forall|i: int| 0 <= i < s.len() ==> #[trigger] keys_view(s)[i] == key_view(s[i]),
        keys_wf(s) <==> forall|i: int| 0 <= i < s.len() ==> key_wf(#[trigger] s[i]),
    decreases s.len(),
{
    if s.len() > 0 {
        lemma_keys_view(s.drop_last());
        assert forall|i: int| 0 <= i < s.len() implies #[trigger] keys_view(s)[i] == key_view(
            s[i],
        ) by {
            if i < s.len() - 1 {
                assert(keys_view(s.drop_last())[i] == key_view(s.drop_last()[i]));
            }
        }
        if keys_wf(s) {
            assert forall|i: int| 0 <= i < s.len() implies key_wf(#[trigger] s[i]) by {
                if i < s.len() - 1 {
                    assert(key_wf(s.drop_last()[i]));
                }
            }
        }
        if forall|i: int| 0 <= i < s.len() ==> key_wf(#[trigger] s[i]) {
            assert forall|i: int| 0 <= i < s.drop_last().len() implies key_wf(
                #[trigger] s.drop_last()[i],
            ) by {
                assert(key_wf(s[i]));
            }
            assert(key_wf(s[s.len() - 1]));
        }
    }
}

/// The map of a list of pairs after one more pair.
pub proof fn lemma_dims_push(s: Seq<(String, Vec<String>)>, p: (String, Vec<String>))
    ensures
        dims_view(pairs_map(s.push(p))) == dims_view(pairs_map(s)).insert(p.0@, texts(p.1@)),
{
    assert(s.push(p).drop_last() =~= s);
    assert(dims_view(pairs_map(s.push(p))) =~= dims_view(pairs_map(s)).insert(p.0@, texts(p.1@)));
}

/// A copy of a map of value lists.
pub fn copy_dims(m: &NameMap<Vec<String>>) -> (r: NameMap<Vec<String>>)
    ensures
        dims_view(r@) == dims_view(m@),
        pair_names(r.entries@) == pair_names(m.entries@),
        m.wf() ==> r.wf(),
{
    let mut out: Vec<(String, Vec<String>)> = Vec::new();
    let mut i: usize = 0;
    let ghost s = m.entries@;
    proof {
        assert(s.take(0) =~= Seq::empty());
        assert(dims_view(pairs_map(out@)) =~= dims_view(pairs_map(s.take(0))));
    }
    while i < m.entries.len()
        invariant
            s == m.entries@,
            i <= s.len(),
            out@.len() == i,
            forall|j: int| 0 <= j < i ==> (#[trigger] out@[j]).0@ == s[j].0@,
            dims_view(pairs_map(out@)) == dims_view(pairs_map(s.take(i as int))),
        decreases s.len() - i,
    {
        let p = (m.entries[i].0.clone(), copy_texts(&m.entries[i].1));
        proof {
            lemma_dims_push(out@, p);
            lemma_dims_push(s.take(i as int), s[i as int]);
            assert(s.take(i + 1) =~= s.take(i as int).push(s[i as int]));
        }
        out.push(p);
        i += 1;
    }
    proof {
        assert(s.take(s.len() as int) =~= s);
        assert(pair_names(out@) =~= pair_names(s));
        if distinct_names(s) {
            assert forall|a: int, b: int| 0 <= a < b < out@.len() implies (#[trigger] out@[a]).0@
                != (#[trigger] out@[b]).0@ by {
                assert(s[a].0@ != s[b].0@);
            }
        }
    }
    NameMap { entries: out }
}

/// Whether two maps give the same names the same value lists.
fn same_dims(a: &NameMap<Vec<String>>, b: &NameMap<Vec<String>>) -> (r: bool)
    requires
        a.wf(),
        b.wf(),
    ensures
        r == (dims_view(a@) == dims_view(b@)),
{
    proof {
        lemma_pairs_len(a.entries@);
        lemma_pairs_len(b.entries@);
    }
    if a.len() != b.len() {
        proof {
            assert(dims_view(a@).dom() =~= a@.dom());
            assert(dims_view(b@).dom() =~= b@.dom());
        }
        return false;
    }
    let mut i: usize = 0;
    while i < a.entries.len()
        invariant
            a.wf(),
            b.wf(),
            i <= a.entries@.len(),
            forall|j: int|
                0 <= j < i ==> dims_view(b@).dom().contains((#[trigger] a.entries@[j]).0@)
                    && dims_view(b@)[a.entries@[j].0@] == texts(a.entries@[j].1@),
        decreases a.entries@.len() - i,
    {
        proof {
            assert forall|j: int| i < j < a.entries@.len() implies (#[trigger] a.entries@[j]).0@
                != a.entries@[i as int].0@ by {
                assert(a.entries@[i as int].0@ != a.entries@[j].0@);
            }
            lemma_pairs_value(a.entries@, i as int);
            assert(dims_view(a@)[a.entries@[i as int].0@] == texts(a.entries@[i as int].1@));
            assert(dims_view(a@).dom().contains(a.entries@[i as int].0@));
        }
        match b.get(a.entries[i].0.as_str()) {
            Some(v) => {
                if !same_texts(&a.entries[i].1, v) {
                    return false;
                }
            },
            None => {
                return false;
            },
        }
        i += 1;
    }
    proof {
        let da = dims_view(a@);
        let db = dims_view(b@);
        assert forall|n: Seq<char>| #[trigger] da.dom().contains(n) implies db.dom().contains(n)
            && da[n] == db[n] by {
            lemma_pairs_dom(a.entries@, n);
            let j = choose|j: int| 0 <= j < a.entries@.len() && (#[trigger] a.entries@[j]).0@ == n;
            assert forall|k: int| j < k < a.entries@.len() implies (#[trigger] a.entries@[k]).0@
                != a.entries@[j].0@ by {
                assert(a.entries@[j].0@ != a.entries@[k].0@);
            }
            lemma_pairs_value(a.entries@, j);
        }
        assert(da.dom() =~= a@.dom());
        assert(db.dom() =~= b@.dom());
        assert(da.dom().subset_of(db.dom()));
        vstd::set_lib::lemma_subset_equality(da.dom(), db.dom());
        assert(da =~= db);
    }
    true
}

/// The form of a key list: the key itself where there is one.
pub open spec fn values_repr(v: Seq<Seq<char>>) -> Seq<char> {
    if v.len() == 1 {
        quoted(v[0])
    } else {
        quoted_list(v)
    }
}

/// One dimension of a key and its values.
pub open spec fn dim_repr(m: Map<Seq<char>, Seq<Seq<char>>>, name: Seq<char>) -> Seq<char> {
    quoted(name) + ": "@ + values_repr(m[name])
}

/// Each dimension of a key and its values, in the order of `names`.
pub open spec fn dims_repr(m: Map<Seq<char>, Seq<Seq<char>>>, names: Seq<Seq<char>>) -> Seq<
    Seq<char>,
> {
    names.map_values(|n: Seq<char>| dim_repr(m, n))
}

/// The printed form of a key. The dimensions come in the order of their names.
pub open spec fn key_repr(k: KeyView) -> Seq<char>
    decreases k,
{
    match k {
        KeyView::Single(keys) => "PartitionKey("@ + values_repr(keys) + ")"@,
        KeyView::Multi(m) => "PartitionKey({"@ + joined(dims_repr(m, set_in_order(m.dom())), ", "@)
            + "})"@,
        KeyView::Batch(keys) => "PartitionKey.Set(["@ + joined(keys_repr(keys), ", "@) + "])"@,
    }
}

/// The printed form of each key of a list.
pub open spec fn keys_repr(s: Seq<KeyView>) -> Seq<Seq<char>>
    decreases s,
{
    if s.len() == 0 {
        Seq::empty()
    } else {
        keys_repr(s.drop_last()).push(key_repr(s.last()))
    }
}

fn values_repr_text(v: &Vec<String>) -> (r: String)
    ensures
        r@ == values_repr(texts(v@)),
{
    if v.len() == 1 {
        quoted_text(v[0].as_str())
    } else {
        quoted_list_text(v)
    }
}

/// Whether each list of values is not empty.
pub open spec fn first_empty(s: Seq<(String, Vec<String>)>) -> Option<int>
    decreases s.len(),
{
    if s.len() == 0 {
        None
    } else {
        match first_empty(s.drop_last()) {
            Some(i) => Some(i),
            None => if s.last().1@.len() == 0 {
                Some(s.len() - 1)
            } else {
                None
            },
        }
    }
}

/// The map of a list of dimensions, the values of each in order.
pub open spec fn sorted_dims(s: Seq<(String, Vec<String>)>) -> Map<Seq<char>, Seq<Seq<char>>>
    decreases s.len(),
{
    if s.len() == 0 {
        Map::empty()
    } else {
        sorted_dims(s.drop_last()).insert(s.last().0@, sorted_texts(texts(s.last().1@)))
    }
}

impl View for PyPartitionKey {
    type V = KeyView;

    open spec fn view(&self) -> KeyView {
        key_view(*self)
    }
}

impl PyPartitionKey {
    pub open spec fn wf(&self) -> bool {
        key_wf(*self)
    }

    /// The key of one text.
    pub fn of(key: String) -> (r: Self)
        ensures
            r.wf(),
            r@ == KeyView::Single(seq![key@]),
    {
        let mut keys: Vec<String> = Vec::new();
        let ghost k = key;
        keys.push(key);
        proof {
            assert(texts(keys@) =~= seq![k@]);
        }
        PyPartitionKey::Single { key: keys }
    }

    /// A single-dimension key of one or more texts, kept in order.
    pub fn single(keys: Vec<String>) -> (r: Result<Self, Fault>)
        ensures
            match r {
                Ok(k) => keys@.len() > 0 && k.wf() && k@ == KeyView::Single(
                    sorted_texts(texts(keys@)),
                ),
                Err(e) => keys@.len() == 0 && e@ == (
                    FaultKind::Definition,
                    "partition key list must not be empty"@,
                ),
            },
    {
        if keys.len() == 0 {
            return Err(Fault::definition("partition key list must not be empty".to_owned()));
        }
        Ok(PyPartitionKey::Single { key: sort_texts(keys) })
    }

    /// A key of several dimensions, the values of each kept in order. Of two
    /// entries for one dimension the later counts.
    pub fn multi(dims: Vec<(String, Vec<String>)>) -> (r: Result<Self, Fault>)
        ensures
            match r {
                Ok(k) => dims@.len() > 0 && first_empty(dims@) is None && k.wf() && k@
                    == KeyView::Multi(sorted_dims(dims@)),
                Err(e) => match first_empty(dims@) {
                    Some(i) => e@ == (
                        FaultKind::Definition,
                        "partition key list for dimension '"@ + dims@[i].0@
                            + "' must not be empty"@,
                    ),
                    None => dims@.len() == 0 && e@ == (
                        FaultKind::Definition,
                        "PartitionKey dict must have at least one dimension"@,
                    ),
                },
            },
    {
        let mut keys: NameMap<Vec<String>> = NameMap::new();
        let mut i: usize = 0;
        proof {
            assert(dims@.take(0) =~= Seq::empty());
            assert(dims_view(keys@) =~= sorted_dims(dims@.take(0)));
        }
        while i < dims.len()
            invariant
                i <= dims@.len(),
                keys.wf(),
                first_empty(dims@.take(i as int)) is None,
                dims_view(keys@) == sorted_dims(dims@.take(i as int)),
                i > 0 ==> keys@.dom().contains(dims@[i - 1].0@),
            decreases dims@.len() - i,
        {
            proof {
                assert(dims@.take(i + 1).drop_last() =~= dims@.take(i as int));
                assert(dims@.take(i + 1).last() == dims@[i as int]);
            }
            if dims[i].1.len() == 0 {
                proof {
                    lemma_first_empty_prefix(dims@, i + 1);
                }
                return Err(
                    Fault::definition(
                        say3(
                            "partition key list for dimension '",
                            dims[i].0.as_str(),
                            "' must not be empty",
                        ),
                    ),
                );
            }
            let ghost before = keys@;
            let values = sort_texts(copy_texts(&dims[i].1));
            let ghost vs = values;
            keys.insert(dims[i].0.clone(), values);
            proof {
                assert(dims_view(keys@) =~= dims_view(before).insert(
                    dims@[i as int].0@,
                    texts(vs@),
                ));
            }
            i += 1;
        }
        proof {
            assert(dims@.take(i as int) =~= dims@);
        }
        if dims.len() == 0 {
            return Err(
                Fault::definition("PartitionKey dict must have at least one dimension".to_owned()),
            );
        }
        Ok(PyPartitionKey::Multi { keys })
    }

    /// A key that stands for the same.
    pub fn copy(&self) -> (r: Self)
        ensures
            r@ == self@,
            self.wf() ==> r.wf(),
        decreases self,
    {
        match self {
            PyPartitionKey::Single { key } => PyPartitionKey::Single { key: copy_texts(key) },
            PyPartitionKey::Multi { keys } => PyPartitionKey::Multi { keys: copy_dims(keys) },
            PyPartitionKey::Batch { members: keys } => {
                let mut out: Vec<PyPartitionKey> = Vec::new();
                let mut i: usize = 0;
                while i < keys.len()
                    invariant
                        i <= keys@.len(),
                        out@.len() == i,
                        self == (PyPartitionKey::Batch { members: *keys }),
                        forall|j: int| 0 <= j < i ==> (#[trigger] out@[j])@ == keys@[j]@,
                        forall|j: int|
                            0 <= j < i ==> (keys@[j].wf() ==> (#[trigger] out@[j]).wf()),
                    decreases keys@.len() - i,
                {
                    proof {
                        lemma_member_decreases(*self, i as int);
                    }
                    out.push(keys[i].copy());
                    i += 1;
                }
                proof {
                    lemma_keys_view(out@);
                    lemma_keys_view(keys@);
                    assert(keys_view(out@) =~= keys_view(keys@));
                }
                PyPartitionKey::Batch { members: out }
            },
        }
    }

    /// Whether two keys stand for the same.
    pub fn same(&self, other: &Self) -> (r: bool)
        requires
            self.wf(),
            other.wf(),
        ensures
            r == (self@ == other@),
        decreases self,
    {
        match (self, other) {
            (PyPartitionKey::Single { key: a }, PyPartitionKey::Single { key: b }) => same_texts(
                a,
                b,
            ),
            (PyPartitionKey::Multi { keys: a }, PyPartitionKey::Multi { keys: b }) => same_dims(
                a,
                b,
            ),
            (PyPartitionKey::Batch { members: a }, PyPartitionKey::Batch { members: b }) => {
                proof {
                    lemma_keys_view(a@);
                    lemma_keys_view(b@);
                }
                if a.len() != b.len() {
                    return false;
                }
                let mut i: usize = 0;
                while i < a.len()
                    invariant
                        a@.len() == b@.len(),
                        i <= a@.len(),
                        self == (PyPartitionKey::Batch { members: *a }),
                        other == (PyPartitionKey::Batch { members: *b }),
                        forall|j: int| 0 <= j < a@.len() ==> key_wf(#[trigger] a@[j]),
                        forall|j: int| 0 <= j < b@.len() ==> key_wf(#[trigger] b@[j]),
                        forall|j: int|
                            0 <= j < i ==> key_view(#[trigger] a@[j]) == key_view(b@[j]),
                    decreases a@.len() - i,
                {
                    proof {
                        lemma_member_decreases(*self, i as int);
                        lemma_keys_view(a@);
                        lemma_keys_view(b@);
                    }
                    if !a[i].same(&b[i]) {
                        proof {
                            assert(keys_view(a@)[i as int] != keys_view(b@)[i as int]);
                        }
                        return false;
                    }
                    i += 1;
                }
                proof {
                    assert(keys_view(a@) =~= keys_view(b@));
                }
                true
            },
            _ => false,
        }
    }

    /// The printed form of the key.
    pub fn repr(&self) -> (r: String)
        requires
            self.wf(),
        ensures
            r@ == key_repr(self@),
        decreases self,
    {
        match self {
            PyPartitionKey::Single { key } => say3(
                "PartitionKey(",
                values_repr_text(key).as_str(),
                ")",
            ),
            PyPartitionKey::Multi { keys } => {
                let names = keys.sorted_names();
                let ghost m = dims_view(keys@);
                let ghost order = set_in_order(m.dom());
                proof {
                    assert(m.dom() =~= keys@.dom());
                }
                let mut out: Vec<String> = Vec::new();
                let mut i: usize = 0;
                while i < names.len()
                    invariant
                        texts(names@) == order,
                        m == dims_view(keys@),
                        forall|j: int|
                            0 <= j < names@.len() ==> keys@.dom().contains((#[trigger] names@[j])@),
                        i <= names@.len(),
                        texts(out@) == dims_repr(m, order.take(i as int)),
                    decreases names@.len() - i,
                {
                    proof {
                        assert(order[i as int] == names@[i as int]@);
                    }
                    if let Some(v) = keys.get(names[i].as_str()) {
                        let mut s = quoted_text(names[i].as_str());
                        s.append(": ");
                        s.append(values_repr_text(v).as_str());
                        let ghost prev = texts(out@);
                        let ghost e = s@;
                        out.push(s);
                        proof {
                            assert(texts(out@) =~= prev.push(e));
                            assert(e == dim_repr(m, order[i as int]));
                            assert(dims_repr(m, order.take(i + 1)) =~= dims_repr(
                                m,
                                order.take(i as int),
                            ).push(e));
                        }
                    }
                    i += 1;
                }
                proof {
                    assert(order.take(i as int) =~= order);
                }
                say3("PartitionKey({", join_texts(&out, ", ").as_str(), "})")
            },
            PyPartitionKey::Batch { members: keys } => {
                let mut out: Vec<String> = Vec::new();
                let mut i: usize = 0;
                let ghost ks = keys_view(keys@);
                proof {
                    assert(ks.take(0) =~= Seq::empty());
                    lemma_keys_view(keys@);
                }
                while i < keys.len()
                    invariant
                        i <= keys@.len(),
                        self == (PyPartitionKey::Batch { members: *keys }),
                        ks.len() == keys@.len(),
                        forall|j: int| 0 <= j < keys@.len() ==> key_wf(#[trigger] keys@[j]),
                        forall|j: int|
                            0 <= j < keys@.len() ==> #[trigger] ks[j] == key_view(keys@[j]),
                        texts(out@) == keys_repr(ks.take(i as int)),
                    decreases keys@.len() - i,
                {
                    proof {
                        lemma_member_decreases(*self, i as int);
                        assert(ks.take(i + 1).drop_last() =~= ks.take(i as int));
                        assert(ks.take(i + 1).last() == ks[i as int]);
                    }
                    let s = keys[i].repr();
                    let ghost prev = texts(out@);
                    let ghost e = s@;
                    out.push(s);
                    proof {
                        assert(texts(out@) =~= prev.push(e));
                    }
                    i += 1;
                }
                proof {
                    assert(ks.take(i as int) =~= ks);
                }
                say3("PartitionKey.Set([", join_texts(&out, ", ").as_str(), "])")
            },
        }
    }
}

/// A prefix with an empty value list decides where the first one stands.
proof fn lemma_first_empty_prefix(s: Seq<(String, Vec<String>)>, n: int)
    requires
        0 <= n <= s.len(),
        first_empty(s.take(n)) is Some,
    ensures
        first_empty(s) == first_empty(s.take(n)),
    decreases s.len(),
{
    if n < s.len() {
        assert(s.drop_last().take(n) =~= s.take(n));
        lemma_first_empty_prefix(s.drop_last(), n);
    } else {
        assert(s.take(n) =~= s);
    }
}

} // verus!
