//! When two mappings are the same.
use vstd::prelude::*;
use crate::names::{
    lemma_pairs_dom, lemma_pairs_len, lemma_pairs_value, pairs_map, NameMap,
};
use crate::partitions::identity::RangeView;
use crate::partitions::key::KeyView;
use crate::partitions::mapping::{
    lemma_mapping_decreases, lemma_mappings_wf, mappings_wf, PartitionKeySelector, PartitionMapping,
};
use crate::text::{same_text, same_texts, texts};

verus! {

/// What a selector stands for.
pub enum SelectorView {
    Key(KeyView),
    Range(RangeView),
}

/// What a mapping stands for.
pub enum MappingView {
    Identity,
    AllPartitions,
    Static(Map<Seq<char>, Seq<char>>),
    TimeWindow(i64),
    Multi(Map<Seq<char>, (Seq<char>, MappingView)>),
    MultiToSingle(Seq<char>, Box<MappingView>),
    SpecificPartitions(Seq<Seq<char>>),
    ForKeys(Seq<SelectorView>),
    Subset,
}

impl View for PartitionKeySelector {
    type V = SelectorView;

    open spec fn view(&self) -> SelectorView {
        match *self {
            PartitionKeySelector::Key(k) => SelectorView::Key(k@),
            PartitionKeySelector::Range(r) => SelectorView::Range(r@),
        }
    }
}

/// What each selector of a list stands for.
pub open spec fn selectors_view(s: Seq<PartitionKeySelector>) -> Seq<SelectorView> {
    s.map_values(|x: PartitionKeySelector| x@)
}

/// The texts of a map of texts.
pub open spec fn texts_map(m: Map<Seq<char>, String>) -> Map<Seq<char>, Seq<char>> {
    m.map_values(|t: String| t@)
}

/// What a mapping stands for.
pub open spec fn mapping_view(m: PartitionMapping) -> MappingView
    decreases m,
{
    match m {
        PartitionMapping::Identity => MappingView::Identity,
        PartitionMapping::AllPartitions => MappingView::AllPartitions,
        PartitionMapping::Static { mapping } => MappingView::Static(texts_map(mapping@)),
        PartitionMapping::TimeWindow { offset } => MappingView::TimeWindow(offset),
        PartitionMapping::Multi { dimension_mappings } => MappingView::Multi(
            dims_mapped(dimension_mappings.entries@),
        ),
        PartitionMapping::MultiToSingle {
            dimension_name,
            partition_mapping,
        } => MappingView::MultiToSingle(
            dimension_name@,
            Box::new(mapping_view(*partition_mapping.0)),
        ),
        PartitionMapping::SpecificPartitions { partition_keys } => MappingView::SpecificPartitions(
            texts(partition_keys@),
        ),
        PartitionMapping::ForKeys { selectors } => MappingView::ForKeys(selectors_view(selectors@)),
        PartitionMapping::Subset => MappingView::Subset,
    }
}

/// What the mapping of each dimension stands for.
pub open spec fn dims_mapped(s: Seq<(String, (String, PartitionMapping))>) -> Map<
    Seq<char>,
    (Seq<char>, MappingView),
>
    decreases s,
{
    if s.len() == 0 {
        Map::empty()
    } else {
        dims_mapped(s.drop_last()).insert(
            s.last().0@,
            (s.last().1.0@, mapping_view(s.last().1.1)),
        )
    }
}

pub proof fn lemma_dims_mapped(s: Seq<(String, (String, PartitionMapping))>)
    ensures
        dims_mapped(s).dom() == pairs_map(s).dom(),
        forall|n: Seq<char>| #[trigger]
            pairs_map(s).dom().contains(n) ==> dims_mapped(s)[n] == (
                pairs_map(s)[n].0@,
                mapping_view(pairs_map(s)[n].1),
            ),
    decreases s.len(),
{
    if s.len() > 0 {
        lemma_dims_mapped(s.drop_last());
    }
    assert(dims_mapped(s).dom() =~= pairs_map(s).dom());
}

fn same_text_maps(a: &NameMap<String>, b: &NameMap<String>) -> (r: bool)
    requires
        a.wf(),
        b.wf(),
    ensures
        r == (texts_map(a@) == texts_map(b@)),
{
    proof {
        lemma_pairs_len(a.entries@);
        lemma_pairs_len(b.entries@);
        assert(texts_map(a@).dom() =~= a@.dom());
        assert(texts_map(b@).dom() =~= b@.dom());
    }
    if a.len() != b.len() {
        return false;
    }
    let mut i: usize = 0;
    while i < a.entries.len()
        invariant
            a.wf(),
            b.wf(),
            texts_map(a@).dom() == a@.dom(),
            texts_map(b@).dom() == b@.dom(),
            i <= a.entries@.len(),
            forall|j: int|
                0 <= j < i ==> b@.dom().contains((#[trigger] a.entries@[j]).0@)
                    && b@[a.entries@[j].0@]@ == a.entries@[j].1@,
        decreases a.entries@.len() - i,
    {
        proof {
            assert forall|j: int| i < j < a.entries@.len() implies (#[trigger] a.entries@[j]).0@
                != a.entries@[i as int].0@ by {
                assert(a.entries@[i as int].0@ != a.entries@[j].0@);
            }
            lemma_pairs_value(a.entries@, i as int);
            assert(texts_map(a@)[a.entries@[i as int].0@] == a.entries@[i as int].1@);
        }
        match b.get(a.entries[i].0.as_str()) {
            Some(v) => {
                if !same_text(a.entries[i].1.as_str(), v.as_str()) {
                    proof {
                        assert(texts_map(b@)[a.entries@[i as int].0@] == v@);
                    }
                    return false;
                }
            },
            None => {
                return false;
            },
        }
        i += 1;
    }
    proof {
        assert forall|n: Seq<char>| #[trigger] a@.dom().contains(n) implies b@.dom().contains(n)
            && a@[n]@ == b@[n]@ by {
            lemma_pairs_dom(a.entries@, n);
            let j = choose|j: int| 0 <= j < a.entries@.len() && (#[trigger] a.entries@[j]).0@ == n;
            assert forall|k: int| j < k < a.entries@.len() implies (#[trigger] a.entries@[k]).0@
                != a.entries@[j].0@ by {
                assert(a.entries@[j].0@ != a.entries@[k].0@);
            }
            lemma_pairs_value(a.entries@, j);
        }
        assert(a@.dom().subset_of(b@.dom()));
        vstd::set_lib::lemma_subset_equality(a@.dom(), b@.dom());
        assert(texts_map(a@) =~= texts_map(b@));
    }
    true
}

fn same_selectors(a: &Vec<PartitionKeySelector>, b: &Vec<PartitionKeySelector>) -> (r: bool)
    requires
        forall|i: int| 0 <= i < a@.len() ==> (#[trigger] a@[i]).wf(),
        forall|i: int| 0 <= i < b@.len() ==> (#[trigger] b@[i]).wf(),
    ensures
        r == (selectors_view(a@) == selectors_view(b@)),
{
    if a.len() != b.len() {
        proof {
            assert(selectors_view(a@).len() != selectors_view(b@).len());
        }
        return false;
    }
    let mut i: usize = 0;
    while i < a.len()
        invariant
            a@.len() == b@.len(),
            i <= a@.len(),
            forall|j: int| 0 <= j < a@.len() ==> (#[trigger] a@[j]).wf(),
            forall|j: int| 0 <= j < b@.len() ==> (#[trigger] b@[j]).wf(),
            forall|j: int| 0 <= j < i ==> (#[trigger] a@[j])@ == b@[j]@,
        decreases a@.len() - i,
    {
        if !a[i].same(&b[i]) {
            proof {
                assert(selectors_view(a@)[i as int] != selectors_view(b@)[i as int]);
            }
            return false;
        }
        i += 1;
    }
    proof {
        assert(selectors_view(a@) =~= selectors_view(b@));
    }
    true
}

impl PartitionKeySelector {
    /// Whether two selectors stand for the same.
    pub fn same(&self, other: &Self) -> (r: bool)
        requires
            self.wf(),
            other.wf(),
        ensures
            r == (self@ == other@),
    {
        match (self, other) {
            (PartitionKeySelector::Key(a), PartitionKeySelector::Key(b)) => a.same(b),
            (PartitionKeySelector::Range(a), PartitionKeySelector::Range(b)) => a.same(b),
            _ => false,
        }
    }
}

impl View for PartitionMapping {
    type V = MappingView;

    open spec fn view(&self) -> MappingView {
        mapping_view(*self)
    }
}

impl PartitionMapping {
    /// Whether two mappings stand for the same.
    pub fn same(&self, other: &Self) -> (r: bool)
        requires
            self.wf(),
            other.wf(),
        ensures
            r == (self@ == other@),
        decreases self,
    {
        match (self, other) {
            (PartitionMapping::Identity, PartitionMapping::Identity) => true,
            (PartitionMapping::AllPartitions, PartitionMapping::AllPartitions) => true,
            (PartitionMapping::Subset, PartitionMapping::Subset) => true,
            (
                PartitionMapping::Static { mapping: a },
                PartitionMapping::Static { mapping: b },
            ) => same_text_maps(a, b),
            (
                PartitionMapping::TimeWindow { offset: a },
                PartitionMapping::TimeWindow { offset: b },
            ) => *a == *b,
            (
                PartitionMapping::SpecificPartitions { partition_keys: a },
                PartitionMapping::SpecificPartitions { partition_keys: b },
            ) => same_texts(a, b),
            (
                PartitionMapping::ForKeys { selectors: a },
                PartitionMapping::ForKeys { selectors: b },
            ) => same_selectors(a, b),
            (
                PartitionMapping::MultiToSingle { dimension_name: a, partition_mapping: x },
                PartitionMapping::MultiToSingle { dimension_name: b, partition_mapping: y },
            ) => {
                proof {
                    assert(decreases_to!(*self => *x));
                    assert(decreases_to!(*x => x.0));
                }
                same_text(a.as_str(), b.as_str()) && x.0.same(&y.0)
            },
            (
                PartitionMapping::Multi { dimension_mappings: a },
                PartitionMapping::Multi { dimension_mappings: b },
            ) => {
                proof {
                    lemma_pairs_len(a.entries@);
                    lemma_pairs_len(b.entries@);
                    lemma_dims_mapped(a.entries@);
                    lemma_dims_mapped(b.entries@);
                }
                if a.len() != b.len() {
                    return false;
                }
                let ghost da = dims_mapped(a.entries@);
                let ghost db = dims_mapped(b.entries@);
                let mut i: usize = 0;
                while i < a.entries.len()
                    invariant
                        self == (PartitionMapping::Multi { dimension_mappings: *a }),
                        other == (PartitionMapping::Multi { dimension_mappings: *b }),
                        a.wf(),
                        b.wf(),
                        mappings_wf(a.entries@),
                        mappings_wf(b.entries@),
                        da == dims_mapped(a.entries@),
                        db == dims_mapped(b.entries@),
                        i <= a.entries@.len(),
                        forall|j: int|
                            0 <= j < i ==> db.dom().contains((#[trigger] a.entries@[j]).0@)
                                && db[a.entries@[j].0@] == da[a.entries@[j].0@],
                    decreases a.entries@.len() - i,
                {
                    let ghost name = a.entries@[i as int].0@;
                    proof {
                        lemma_mapping_decreases(*self, i as int);
                        lemma_mappings_wf(a.entries@, i as int);
                        lemma_dims_mapped(a.entries@);
                        lemma_dims_mapped(b.entries@);
                        assert forall|j: int| i < j < a.entries@.len() implies (
                        #[trigger] a.entries@[j]).0@ != a.entries@[i as int].0@ by {
                            assert(a.entries@[i as int].0@ != a.entries@[j].0@);
                        }
                        lemma_pairs_value(a.entries@, i as int);
                        assert(da.dom().contains(name));
                    }
                    match b.position(a.entries[i].0.as_str()) {
                        Some(k) => {
                            proof {
                                lemma_mappings_wf(b.entries@, k as int);
                                assert(db.dom().contains(name));
                            }
                            if !same_text(a.entries[i].1.0.as_str(), b.entries[k].1.0.as_str())
                                || !a.entries[i].1.1.same(&b.entries[k].1.1) {
                                return false;
                            }
                        },
                        None => {
                            return false;
                        },
                    }
                    i += 1;
                }
                proof {
                    assert forall|n: Seq<char>| #[trigger]
                        da.dom().contains(n) implies db.dom().contains(n) && da[n] == db[n] by {
                        lemma_pairs_dom(a.entries@, n);
                        let j = choose|j: int|
                            0 <= j < a.entries@.len() && (#[trigger] a.entries@[j]).0@ == n;
                        assert(db.dom().contains(a.entries@[j].0@));
                    }
                    assert(da.dom().subset_of(db.dom()));
                    vstd::set_lib::lemma_subset_equality(da.dom(), db.dom());
                    assert(da =~= db);
                }
                true
            },
            _ => false,
        }
    }
}

} // verus!
