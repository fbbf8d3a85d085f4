//! What is refused when a key, a scheme or a mapping arrives, and what it then is.
use vstd::prelude::*;
use crate::errors::{FaultKind, FaultView};
use crate::partitions::definition::DefView;
use crate::partitions::key::KeyView;
use crate::partitions::key_set::no_repeats;
use crate::partitions::mapping_same::MappingView;
use crate::partitions::transport::{
    dims_anew, dims_fault, inner_variant, key_anew, key_variant, mapping_anew, nested_variant,
    scheme_anew, scheme_variant, DataView,
};
use crate::text::in_order;

verus! {

/// A key arrives under the name of one of the three kinds; under any other it is refused.
pub proof fn lemma_key_anew(variant: Seq<char>, k: KeyView)
    ensures
        key_anew(variant, k) is Ok <==> variant == "Single"@ || variant == "Multi"@ || variant
            == "Set"@,
        key_anew(variant, k) is Ok ==> key_anew(variant, k)->Ok_0 == k,
        key_anew(variant, k) is Err ==> key_anew(variant, k)->Err_0.0 == FaultKind::Value,
        k is Single ==> key_variant(k) == "Single"@,
        k is Multi ==> key_variant(k) == "Multi"@,
        k is Batch ==> key_variant(k) == "Set"@,
{
}

/// A scheme arrives under the name of one of the four kinds. Fixed keys arrive each once;
/// any other scheme arrives as it is.
pub proof fn lemma_scheme_anew(variant: Seq<char>, d: DefView)
    ensures
        scheme_anew(variant, d) is Ok <==> variant == "Static"@ || variant == "TimeWindow"@
            || variant == "Multi"@ || variant == "Dynamic"@,
        scheme_anew(variant, d) is Err ==> scheme_anew(variant, d)->Err_0.0 == FaultKind::Value,
        scheme_anew(variant, d) is Ok && !(d is Static) ==> scheme_anew(variant, d)->Ok_0 == d,
        scheme_anew(variant, d) is Ok && d is Static ==> {
            let keys = scheme_anew(variant, d)->Ok_0->Static_0;
            &&& scheme_anew(variant, d)->Ok_0 is Static
            &&& no_repeats(keys)
            &&& forall|k: Seq<char>| keys.contains(k) <==> d->Static_0.contains(k)
        },
        d is Static ==> scheme_variant(d) == "Static"@,
        d is TimeWindow ==> scheme_variant(d) == "TimeWindow"@,
        d is Multi ==> scheme_variant(d) == "Multi"@,
        d is Dynamic ==> scheme_variant(d) == "Dynamic"@,
{
    if let DefView::Static(v) = d {
        crate::partitions::key_set::lemma_first_occurrences(v);
    }
}

/// No dimension takes a mapping by dimensions, for keys or to a subset.
pub proof fn lemma_dims_refused(s: Seq<(Seq<char>, Option<Seq<char>>, MappingView)>)
    ensures
        dims_fault(s) is None <==> forall|i: int|
            0 <= i < s.len() ==> !((#[trigger] s[i]).2 is Multi || s[i].2 is ForKeys || s[i].2
                is Subset),
        dims_fault(s) is Some ==> (dims_fault(s)->0).0 == FaultKind::Validation,
    decreases s.len(),
{
    if s.len() > 0 {
        let w = s.drop_last();
        lemma_dims_refused(w);
        if dims_fault(s) is None {
            assert forall|i: int| 0 <= i < s.len() implies !((#[trigger] s[i]).2 is Multi || s[i].2
                is ForKeys || s[i].2 is Subset) by {
                if i < w.len() {
                    assert(w[i] == s[i]);
                }
            }
        }
        if forall|i: int|
            0 <= i < s.len() ==> !((#[trigger] s[i]).2 is Multi || s[i].2 is ForKeys || s[i].2
                is Subset) {
            assert forall|i: int| 0 <= i < w.len() implies !((#[trigger] w[i]).2 is Multi || w[i].2
                is ForKeys || w[i].2 is Subset) by {
                assert(w[i] == s[i]);
            }
            assert(!(s[s.len() - 1].2 is Multi));
        }
    }
}

/// A dimension arrives under its name, with the dimension that it takes: its own where none
/// is said. The last of a name counts.
pub proof fn lemma_dims_anew(
    s: Seq<(Seq<char>, Option<Seq<char>>, MappingView)>,
    name: Seq<char>,
    to: Option<Seq<char>>,
    m: MappingView,
)
    ensures
        dims_anew(Seq::empty()).dom().len() == 0,
        to is Some ==> dims_anew(s.push((name, to, m))) == dims_anew(s).insert(name, (to->0, m)),
        to is None ==> dims_anew(s.push((name, to, m))) == dims_anew(s).insert(name, (name, m)),
{
    assert(s.push((name, to, m)).drop_last() =~= s);
}

/// A mapping to one dimension takes no mapping by dimensions, for keys, to a subset or to
/// one dimension.
pub proof fn lemma_inner_refused(m: MappingView)
    ensures
        nested_variant(m) is Some <==> m is Multi || m is ForKeys || m is Subset,
        inner_variant(m) is Some <==> m is Multi || m is ForKeys || m is Subset
            || m is MultiToSingle,
{
}

/// What a mapping arrives as. Keys arrive in order; an empty list of dimensions, keys or
/// selectors is refused, as is a mapping inside that may not stand there and a kind that is
/// not known.
pub proof fn lemma_mapping_anew(variant: Seq<char>, d: DataView)
    ensures
        ({
            let r = mapping_anew(variant, d);
            &&& variant == "Identity"@ ==> r == Ok::<MappingView, FaultView>(MappingView::Identity)
            &&& variant == "AllPartitions"@ ==> r == Ok::<MappingView, FaultView>(
                MappingView::AllPartitions,
            )
            &&& variant == "Subset"@ ==> r == Ok::<MappingView, FaultView>(MappingView::Subset)
            &&& variant == "Static"@ ==> r == Ok::<MappingView, FaultView>(
                MappingView::Static(d->Texts_0),
            )
            &&& variant == "TimeWindow"@ ==> r == Ok::<MappingView, FaultView>(
                MappingView::TimeWindow(d->Offset_0),
            )
            &&& variant == "Multi"@ ==> {
                &&& r is Ok <==> d->Dims_0.len() > 0 && dims_fault(d->Dims_0) is None
                &&& r is Ok ==> r->Ok_0 == MappingView::Multi(dims_anew(d->Dims_0))
            }
            &&& variant == "MultiToSingle"@ ==> {
                &&& r is Ok <==> inner_variant(d->Named_1) is None
                &&& r is Ok ==> r->Ok_0 == MappingView::MultiToSingle(
                    d->Named_0,
                    Box::new(d->Named_1),
                )
            }
            &&& variant == "SpecificPartitions"@ ==> {
                &&& r is Ok <==> d->Keys_0.len() > 0
                &&& r is Ok ==> r->Ok_0 is SpecificPartitions && in_order(
                    r->Ok_0->SpecificPartitions_0,
                ) && r->Ok_0->SpecificPartitions_0.to_multiset() == d->Keys_0.to_multiset()
            }
            &&& variant == "ForKeys"@ ==> {
                &&& r is Ok <==> d->Selectors_0.len() > 0
                &&& r is Ok ==> r->Ok_0 == MappingView::ForKeys(d->Selectors_0)
            }
        }),
{
    crate::partitions::transport::lemma_variants_apart();
    if variant == "SpecificPartitions"@ {
        crate::text::lemma_sorted_texts(d->Keys_0);
    }
}

} // verus!
