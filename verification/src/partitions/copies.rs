//! Copies of ranges, selectors and mappings.
use vstd::prelude::*;
use crate::names::{distinct_names, lemma_pairs_value, pairs_map, NameMap};
use crate::partitions::identity::{choice_of, choices_of};
use crate::partitions::key_range::{
    sels_wf, DimensionSelection, PartitionKeyRangeInner, PyPartitionKeyRange,
};
use crate::partitions::mapping::{
    lemma_mapping_decreases, lemma_mappings_wf, mapping_wf, mappings_wf, BoxedMapping,
    PartitionKeySelector, PartitionMapping,
};
use crate::partitions::mapping_make::lemma_all_wf;
use crate::partitions::mapping_same::{dims_mapped, selectors_view, texts_map};
use crate::text::copy_texts;

verus! {

impl DimensionSelection {
    /// A selection of the same.
    pub fn copy(&self) -> (r: Self)
        requires
            self matches DimensionSelection::Keys(k) ==> k.wf(),
        ensures
            r@ == self@,
            choice_of(r) == choice_of(*self),
            r matches DimensionSelection::Keys(k) ==> k.wf(),
    {
        match self {
            DimensionSelection::Range { from_key, to_key } => DimensionSelection::Range {
                from_key: from_key.clone(),
                to_key: to_key.clone(),
            },
            DimensionSelection::Keys(keys) => DimensionSelection::Keys(keys.copy()),
        }
    }
}

fn copy_selections(m: &NameMap<DimensionSelection>) -> (r: NameMap<DimensionSelection>)
    requires
        m.wf(),
        sels_wf(m@),
    ensures
        r.wf(),
        sels_wf(r@),
        choices_of(r@) == choices_of(m@),
{
    let ghost s = m.entries@;
    let mut out: NameMap<DimensionSelection> = NameMap::new();
    let mut i: usize = 0;
    proof {
        assert(s.take(0) =~= Seq::empty());
        assert(choices_of(out@) =~= choices_of(pairs_map(s.take(0))));
    }
    while i < m.entries.len()
        invariant
            m.wf(),
            sels_wf(m@),
            s == m.entries@,
            i <= s.len(),
            out.wf(),
            sels_wf(out@),
            choices_of(out@) == choices_of(pairs_map(s.take(i as int))),
        decreases s.len() - i,
    {
        proof {
            assert(s.take(i + 1).drop_last() =~= s.take(i as int));
            assert(s.take(i + 1).last() == s[i as int]);
            assert forall|j: int| i < j < s.len() implies (#[trigger] s[j]).0@ != s[i as int].0@ by {
                assert(s[i as int].0@ != s[j].0@);
            }
            lemma_pairs_value(s, i as int);
            assert(m@.dom().contains(s[i as int].0@));
        }
        let sel = m.entries[i].1.copy();
        let ghost before = out@;
        let ghost sv = sel;
        out.insert(m.entries[i].0.clone(), sel);
        proof {
            assert(choices_of(out@) =~= choices_of(before).insert(
                s[i as int].0@,
                choice_of(s[i as int].1),
            ));
            assert(choices_of(pairs_map(s.take(i + 1))) =~= choices_of(
                pairs_map(s.take(i as int)),
            ).insert(s[i as int].0@, choice_of(s[i as int].1)));
        }
        i += 1;
    }
    proof {
        assert(s.take(i as int) =~= s);
    }
    out
}

impl PyPartitionKeyRange {
    /// A range of the same.
    pub fn copy(&self) -> (r: Self)
        requires
            self.wf(),
        ensures
            r.wf(),
            r@ == self@,
    {
        match &self.inner {
            PartitionKeyRangeInner::Single { from_key, to_key } => PyPartitionKeyRange::single(
                from_key.clone(),
                to_key.clone(),
            ),
            PartitionKeyRangeInner::Multi { dimensions } => PyPartitionKeyRange {
                inner: PartitionKeyRangeInner::Multi { dimensions: copy_selections(dimensions) },
            },
        }
    }
}

impl PartitionKeySelector {
    /// A selector of the same.
    pub fn copy(&self) -> (r: Self)
        requires
            self.wf(),
        ensures
            r.wf(),
            r@ == self@,
    {
        match self {
            PartitionKeySelector::Key(k) => PartitionKeySelector::Key(k.copy()),
            PartitionKeySelector::Range(r) => PartitionKeySelector::Range(r.copy()),
        }
    }
}

fn copy_selectors(v: &Vec<PartitionKeySelector>) -> (r: Vec<PartitionKeySelector>)
    requires
        forall|i: int| 0 <= i < v@.len() ==> (#[trigger] v@[i]).wf(),
    ensures
        selectors_view(r@) == selectors_view(v@),
        forall|i: int| 0 <= i < r@.len() ==> (#[trigger] r@[i]).wf(),
{
    let mut out: Vec<PartitionKeySelector> = Vec::new();
    let mut i: usize = 0;
    while i < v.len()
        invariant
            forall|j: int| 0 <= j < v@.len() ==> (#[trigger] v@[j]).wf(),
            i <= v@.len(),
            out@.len() == i,
            forall|j: int| 0 <= j < i ==> (#[trigger] out@[j]).wf() && out@[j]@ == v@[j]@,
        decreases v@.len() - i,
    {
        out.push(v[i].copy());
        i += 1;
    }
    proof {
        assert(selectors_view(out@) =~= selectors_view(v@));
    }
    out
}

fn copy_text_map(m: &NameMap<String>) -> (r: NameMap<String>)
    requires
        m.wf(),
    ensures
        r.wf(),
        texts_map(r@) == texts_map(m@),
{
    let ghost s = m.entries@;
    let mut out: NameMap<String> = NameMap::new();
    let mut i: usize = 0;
    proof {
        assert(s.take(0) =~= Seq::empty());
        assert(texts_map(out@) =~= texts_map(pairs_map(s.take(0))));
    }
    while i < m.entries.len()
        invariant
            s == m.entries@,
            i <= s.len(),
            out.wf(),
            texts_map(out@) == texts_map(pairs_map(s.take(i as int))),
        decreases s.len() - i,
    {
        proof {
            assert(s.take(i + 1).drop_last() =~= s.take(i as int));
            assert(s.take(i + 1).last() == s[i as int]);
        }
        let ghost before = out@;
        out.insert(m.entries[i].0.clone(), m.entries[i].1.clone());
        proof {
            assert(texts_map(out@) =~= texts_map(before).insert(
                s[i as int].0@,
                s[i as int].1@,
            ));
            assert(texts_map(pairs_map(s.take(i + 1))) =~= texts_map(
                pairs_map(s.take(i as int)),
            ).insert(s[i as int].0@, s[i as int].1@));
        }
        i += 1;
    }
    proof {
        assert(s.take(i as int) =~= s);
    }
    out
}

impl PartitionMapping {
    /// A mapping of the same.
    pub fn copy(&self) -> (r: Self)
        requires
            self.wf(),
        ensures
            r.wf(),
            r@ == self@,
        decreases self,
    {
        match self {
            PartitionMapping::Identity => PartitionMapping::Identity,
            PartitionMapping::AllPartitions => PartitionMapping::AllPartitions,
            PartitionMapping::Subset => PartitionMapping::Subset,
            PartitionMapping::Static { mapping } => PartitionMapping::Static {
                mapping: copy_text_map(mapping),
            },
            PartitionMapping::TimeWindow { offset } => PartitionMapping::TimeWindow {
                offset: *offset,
            },
            PartitionMapping::SpecificPartitions {
                partition_keys,
            } => PartitionMapping::SpecificPartitions { partition_keys: copy_texts(partition_keys) },
            PartitionMapping::ForKeys { selectors } => PartitionMapping::ForKeys {
                selectors: copy_selectors(selectors),
            },
            PartitionMapping::MultiToSingle { dimension_name, partition_mapping } => {
                proof {
                    assert(decreases_to!(*self => *partition_mapping));
                    assert(decreases_to!(*partition_mapping => partition_mapping.0));
                }
                PartitionMapping::MultiToSingle {
                    dimension_name: dimension_name.clone(),
                    partition_mapping: BoxedMapping(Box::new(partition_mapping.0.copy())),
                }
            },
            PartitionMapping::Multi { dimension_mappings } => {
                let ghost s = dimension_mappings.entries@;
                let mut out: Vec<(String, (String, PartitionMapping))> = Vec::new();
                let mut i: usize = 0;
                proof {
                    assert(s.take(0) =~= Seq::empty());
                    assert(dims_mapped(out@) =~= dims_mapped(s.take(0)));
                }
                while i < dimension_mappings.entries.len()
                    invariant
                        self == (PartitionMapping::Multi {
                            dimension_mappings: *dimension_mappings,
                        }),
                        s == dimension_mappings.entries@,
                        distinct_names(s),
                        mappings_wf(s),
                        i <= s.len(),
                        out@.len() == i,
                        forall|j: int|
                            0 <= j < i ==> (#[trigger] out@[j]).0@ == s[j].0@ && mapping_wf(
                                out@[j].1.1,
                            ),
                        dims_mapped(out@) == dims_mapped(s.take(i as int)),
                    decreases s.len() - i,
                {
                    proof {
                        lemma_mapping_decreases(*self, i as int);
                        lemma_mappings_wf(s, i as int);
                        assert(s.take(i + 1).drop_last() =~= s.take(i as int));
                        assert(s.take(i + 1).last() == s[i as int]);
                    }
                    let ghost prev = out@;
                    let e = (
                        dimension_mappings.entries[i].0.clone(),
                        (
                            dimension_mappings.entries[i].1.0.clone(),
                            dimension_mappings.entries[i].1.1.copy(),
                        ),
                    );
                    out.push(e);
                    proof {
                        assert(out@.drop_last() =~= prev);
                        assert(out@.last() == e);
                    }
                    i += 1;
                }
                proof {
                    assert(s.take(i as int) =~= s);
                    lemma_all_wf(out@);
                    assert forall|a: int, b: int| 0 <= a < b < out@.len() implies (
                    #[trigger] out@[a]).0@ != (#[trigger] out@[b]).0@ by {
                        assert(s[a].0@ != s[b].0@);
                    }
                }
                PartitionMapping::Multi { dimension_mappings: NameMap { entries: out } }
            },
        }
    }
}

} // verus!
