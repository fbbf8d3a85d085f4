//! The structural form of keys, ranges and selectors, as messages show them.
use vstd::prelude::*;
use vstd::string::*;
use crate::partitions::key::{
    dims_view, key_view, key_wf, keys_view, lemma_keys_view, lemma_member_decreases, KeyView,
    PyPartitionKey,
};
use crate::partitions::key_range::{
    DimensionSelection, PartitionKeyRangeInner, PyPartitionKeyRange, SelView,
};
use crate::partitions::mapping::PartitionKeySelector;
use crate::text::{
    join_texts, joined, quote_each, quoted, quoted_each, quoted_list, quoted_list_text, quoted_text,
    say3, say4, say5, set_in_order, texts,
};

verus! {

/// One dimension of a key and its values.
pub open spec fn dim_form(m: Map<Seq<char>, Seq<Seq<char>>>, name: Seq<char>) -> Seq<char> {
    quoted(name) + ": "@ + quoted_list(m[name])
}

/// Each dimension of a key and its values, in the order of `names`.
pub open spec fn dims_form(m: Map<Seq<char>, Seq<Seq<char>>>, names: Seq<Seq<char>>) -> Seq<
    Seq<char>,
> {
    names.map_values(|n: Seq<char>| dim_form(m, n))
}

/// The structural form of a key. The dimensions come in the order of their names.
pub open spec fn key_form(k: KeyView) -> Seq<char>
    decreases k,
{
    match k {
        KeyView::Single(keys) => "Single { key: "@ + quoted_list(keys) + " }"@,
        KeyView::Multi(m) => "Multi { keys: {"@ + joined(
            dims_form(m, set_in_order(m.dom())),
            ", "@,
        ) + "} }"@,
        KeyView::Batch(keys) => "Set { keys: ["@ + joined(keys_form(keys), ", "@) + "] }"@,
    }
}

/// The structural form of each key of a list.
pub open spec fn keys_form(s: Seq<KeyView>) -> Seq<Seq<char>>
    decreases s,
{
    if s.len() == 0 {
        Seq::empty()
    } else {
        keys_form(s.drop_last()).push(key_form(s.last()))
    }
}

/// The structural form of a selection for a dimension.
pub open spec fn sel_form(name: Seq<char>, sel: SelView) -> Seq<char> {
    match sel {
        SelView::Range(from, to) => quoted(name) + ": Range { from_key: "@ + quoted(from)
            + ", to_key: "@ + quoted(to) + " }"@,
        SelView::Keys(keys) => quoted(name) + ": Keys({"@ + joined(quoted_each(keys), ", "@)
            + "})"@,
    }
}

/// The structural form of each selection of a list.
pub open spec fn sels_form(s: Seq<(String, DimensionSelection)>) -> Seq<Seq<char>> {
    s.map_values(|p: (String, DimensionSelection)| sel_form(p.0@, p.1@))
}

/// The structural form of a range.
pub open spec fn range_form(r: PyPartitionKeyRange) -> Seq<char> {
    match r.inner {
        PartitionKeyRangeInner::Single { from_key, to_key } =>
            "PyPartitionKeyRange { inner: Single { from_key: "@ + quoted(from_key@) + ", to_key: "@
            + quoted(to_key@) + " } }"@,
        PartitionKeyRangeInner::Multi { dimensions } =>
            "PyPartitionKeyRange { inner: Multi { dimensions: {"@ + joined(
            sels_form(dimensions.entries@),
            ", "@,
        ) + "} } }"@,
    }
}

/// The structural form of a selector.
pub open spec fn selector_form(s: PartitionKeySelector) -> Seq<char> {
    match s {
        PartitionKeySelector::Key(k) => "Key("@ + key_form(k@) + ")"@,
        PartitionKeySelector::Range(r) => "Range("@ + range_form(r) + ")"@,
    }
}

/// The structural form of each selector of a list.
pub open spec fn selectors_form(s: Seq<PartitionKeySelector>) -> Seq<Seq<char>> {
    s.map_values(|x: PartitionKeySelector| selector_form(x))
}

impl PyPartitionKey {
    /// The structural form of the key.
    pub fn debug_text(&self) -> (r: String)
        requires
            self.wf(),
        ensures
            r@ == key_form(self@),
        decreases self,
    {
        match self {
            PyPartitionKey::Single { key } => say3(
                "Single { key: ",
                quoted_list_text(key).as_str(),
                " }",
            ),
            PyPartitionKey::Multi { keys } => {
                let names = keys.sorted_names();
                let ghost m = dims_view(keys@);
                let ghost order = set_in_order(m.dom());
                proof {
                    assert(m.dom() =~= keys@.dom());
                }
                let mut out: Vec<String> = Vec::new();
                let mut i: usize = 0;
                while i < names.len()
                    invariant
                        texts(names@) == order,
                        m == dims_view(keys@),
                        forall|j: int|
                            0 <= j < names@.len() ==> keys@.dom().contains((#[trigger] names@[j])@),
                        i <= names@.len(),
                        texts(out@) == dims_form(m, order.take(i as int)),
                    decreases names@.len() - i,
                {
                    proof {
                        assert(order[i as int] == names@[i as int]@);
                    }
                    if let Some(v) = keys.get(names[i].as_str()) {
                        let s = say3(
                            quoted_text(names[i].as_str()).as_str(),
                            ": ",
                            quoted_list_text(v).as_str(),
                        );
                        let ghost prev = texts(out@);
                        let ghost e = s@;
                        out.push(s);
                        proof {
                            assert(texts(out@) =~= prev.push(e));
                            assert(e == dim_form(m, order[i as int]));
                            assert(dims_form(m, order.take(i + 1)) =~= dims_form(
                                m,
                                order.take(i as int),
                            ).push(e));
                        }
                    }
                    i += 1;
                }
                proof {
                    assert(order.take(i as int) =~= order);
                }
                say3("Multi { keys: {", join_texts(&out, ", ").as_str(), "} }")
            },
            PyPartitionKey::Batch { members: keys } => {
                let mut out: Vec<String> = Vec::new();
                let mut i: usize = 0;
                let ghost ks = keys_view(keys@);
                proof {
                    assert(ks.take(0) =~= Seq::empty());
                    lemma_keys_view(keys@);
                }
                while i < keys.len()
                    invariant
                        i <= keys@.len(),
                        self == (PyPartitionKey::Batch { members: *keys }),
                        ks.len() == keys@.len(),
                        forall|j: int| 0 <= j < keys@.len() ==> key_wf(#[trigger] keys@[j]),
                        forall|j: int|
                            0 <= j < keys@.len() ==> #[trigger] ks[j] == key_view(keys@[j]),
                        texts(out@) == keys_form(ks.take(i as int)),
                    decreases keys@.len() - i,
                {
                    proof {
                        lemma_member_decreases(*self, i as int);
                        assert(ks.take(i + 1).drop_last() =~= ks.take(i as int));
                        assert(ks.take(i + 1).last() == ks[i as int]);
                    }
                    let s = keys[i].debug_text();
                    let ghost prev = texts(out@);
                    let ghost e = s@;
                    out.push(s);
                    proof {
                        assert(texts(out@) =~= prev.push(e));
                    }
                    i += 1;
                }
                proof {
                    assert(ks.take(i as int) =~= ks);
                }
                say3("Set { keys: [", join_texts(&out, ", ").as_str(), "] }")
            },
        }
    }
}

impl PyPartitionKeyRange {
    /// The structural form of the range.
    pub fn debug_text(&self) -> (r: String)
        ensures
            r@ == range_form(*self),
    {
        match &self.inner {
            PartitionKeyRangeInner::Single { from_key, to_key } => say5(
                "PyPartitionKeyRange { inner: Single { from_key: ",
                quoted_text(from_key.as_str()).as_str(),
                ", to_key: ",
                quoted_text(to_key.as_str()).as_str(),
                " } }",
            ),
            PartitionKeyRangeInner::Multi { dimensions } => {
                let ghost s = dimensions.entries@;
                let mut out: Vec<String> = Vec::new();
                let mut i: usize = 0;
                while i < dimensions.entries.len()
                    invariant
                        s == dimensions.entries@,
                        i <= s.len(),
                        texts(out@) == sels_form(s.take(i as int)),
                    decreases s.len() - i,
                {
                    let name = quoted_text(dimensions.entries[i].0.as_str());
                    let e = match &dimensions.entries[i].1 {
                        DimensionSelection::Range { from_key, to_key } => {
                            let mut t = say5(
                                name.as_str(),
                                ": Range { from_key: ",
                                quoted_text(from_key.as_str()).as_str(),
                                ", to_key: ",
                                quoted_text(to_key.as_str()).as_str(),
                            );
                            t.append(" }");
                            t
                        },
                        DimensionSelection::Keys(keys) => say4(
                            name.as_str(),
                            ": Keys({",
                            join_texts(&quote_each(&keys.iter()), ", ").as_str(),
                            "})",
                        ),
                    };
                    let ghost prev = texts(out@);
                    let ghost ev = e@;
                    out.push(e);
                    proof {
                        assert(ev == sel_form(s[i as int].0@, s[i as int].1@));
                        assert(texts(out@) =~= prev.push(ev));
                        assert(sels_form(s.take(i + 1)) =~= sels_form(s.take(i as int)).push(ev));
                    }
                    i += 1;
                }
                proof {
                    assert(s.take(i as int) =~= s);
                }
                say3(
                    "PyPartitionKeyRange { inner: Multi { dimensions: {",
                    join_texts(&out, ", ").as_str(),
                    "} } }",
                )
            },
        }
    }
}

impl PartitionKeySelector {
    /// The structural form of the selector.
    pub fn debug_text(&self) -> (r: String)
        requires
            self.wf(),
        ensures
            r@ == selector_form(*self),
    {
        match self {
            PartitionKeySelector::Key(k) => say3("Key(", k.debug_text().as_str(), ")"),
            PartitionKeySelector::Range(r) => say3("Range(", r.debug_text().as_str(), ")"),
        }
    }
}

/// The structural form of each selector of a list.
pub fn selector_texts(v: &Vec<PartitionKeySelector>) -> (r: Vec<String>)
    requires
        forall|i: int| 0 <= i < v@.len() ==> (#[trigger] v@[i]).wf(),
    ensures
        texts(r@) == selectors_form(v@),
{
    let mut out: Vec<String> = Vec::new();
    let mut i: usize = 0;
    while i < v.len()
        invariant
            forall|j: int| 0 <= j < v@.len() ==> (#[trigger] v@[j]).wf(),
            i <= v@.len(),
            texts(out@) == selectors_form(v@.take(i as int)),
        decreases v@.len() - i,
    {
        let s = v[i].debug_text();
        let ghost prev = texts(out@);
        let ghost e = s@;
        out.push(s);
        proof {
            assert(texts(out@) =~= prev.push(e));
            assert(selectors_form(v@.take(i + 1)) =~= selectors_form(v@.take(i as int)).push(e));
        }
        i += 1;
    }
    proof {
        assert(v@.take(i as int) =~= v@);
    }
    out
}

} // verus!
