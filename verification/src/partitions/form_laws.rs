//! How keys, ranges, schemes and mappings are written and hashed, and what a range or a key
//! is made of when it is given piece by piece.
use vstd::prelude::*;
use crate::executor::kind::{executor_repr, Executor};
use crate::partitions::backfill_strategy::{strategy_repr, StrategyView};
use crate::partitions::debug::{key_form, keys_form};
use crate::partitions::definition::DefView;
use crate::partitions::factory::{def_repr, dims_def_repr};
use crate::partitions::identity::{dims_parts, key_parts, listed_parts, members_parts, PartView};
use crate::partitions::key::{dims_repr, first_empty, key_repr, keys_repr, KeyView};
use crate::partitions::key_range::{
    first_empty_list, range_repr, sel_repr, sels_repr, spec_view, specs_map, PartitionKeyRangeInner,
    PyPartitionKeyRange, SelView, SelectionSpec,
};
use crate::partitions::key_set::no_repeats;
use crate::partitions::mapping::PartitionMapping;
use crate::partitions::mapping_errors::{map_message, MapErrView};
use crate::partitions::mapping_make::{entries_repr, mapping_repr};
use crate::moment::moment_form;
use crate::text::{decimal, joined, quoted, quoted_list, set_in_order, signed_decimal, texts};

verus! {

/// The first dimension of a key that is given no values.
pub proof fn lemma_first_empty(s: Seq<(String, Vec<String>)>)
    ensures
        match first_empty(s) {
            Some(i) => 0 <= i < s.len() && s[i].1@.len() == 0 && forall|j: int|
                0 <= j < i ==> (#[trigger] s[j]).1@.len() > 0,
            None => forall|i: int| 0 <= i < s.len() ==> (#[trigger] s[i]).1@.len() > 0,
        },
    decreases s.len(),
{
    if s.len() > 0 {
        let w = s.drop_last();
        lemma_first_empty(w);
        match first_empty(w) {
            Some(i) => {
                assert forall|j: int| 0 <= j < i implies (#[trigger] s[j]).1@.len() > 0 by {
                    assert(w[j] == s[j]);
                }
            },
            None => {
                assert forall|j: int| 0 <= j < s.len() - 1 implies (
                #[trigger] s[j]).1@.len() > 0 by {
                    assert(w[j] == s[j]);
                }
            },
        }
    }
}

/// Whether a selection lists no key at all.
pub open spec fn lists_none(s: SelectionSpec) -> bool {
    s matches SelectionSpec::Keys(ks) && ks@.len() == 0
}

/// The first dimension of a range that is given an empty list of keys.
pub proof fn lemma_first_empty_list(s: Seq<(String, SelectionSpec)>)
    ensures
        match first_empty_list(s) {
            Some(i) => 0 <= i < s.len() && lists_none(s[i].1) && forall|j: int|
                0 <= j < i ==> !lists_none((#[trigger] s[j]).1),
            None => forall|i: int| 0 <= i < s.len() ==> !lists_none((#[trigger] s[i]).1),
        },
    decreases s.len(),
{
    if s.len() > 0 {
        let w = s.drop_last();
        lemma_first_empty_list(w);
        match first_empty_list(w) {
            Some(i) => {
                assert forall|j: int| 0 <= j < i implies !lists_none((#[trigger] s[j]).1) by {
                    assert(w[j] == s[j]);
                }
            },
            None => {
                assert forall|j: int| 0 <= j < s.len() - 1 implies !lists_none(
                    (#[trigger] s[j]).1,
                ) by {
                    assert(w[j] == s[j]);
                }
            },
        }
    }
}

/// A selection that is given by its ends keeps them; one by its keys has each once. The
/// last that is given for a dimension counts.
pub proof fn lemma_selection_given(
    s: Seq<(String, SelectionSpec)>,
    name: String,
    sel: SelectionSpec,
)
    ensures
        specs_map(Seq::empty()).dom().len() == 0,
        specs_map(s.push((name, sel))) == specs_map(s).insert(name@, spec_view(sel)),
        sel matches SelectionSpec::Ends(a, b) ==> spec_view(sel) == SelView::Range(a@, b@),
        sel matches SelectionSpec::Keys(v) ==> {
            &&& spec_view(sel) is Keys
            &&& no_repeats(spec_view(sel)->Keys_0)
            &&& forall|k: Seq<char>|
                spec_view(sel)->Keys_0.contains(k) <==> texts(v@).contains(k)
        },
{
    assert(s.push((name, sel)).drop_last() =~= s);
    if let SelectionSpec::Keys(v) = sel {
        crate::partitions::key_set::lemma_first_occurrences(texts(v@));
    }
}

/// A single key prints its one text, or the list of its texts; a batch prints its members
/// one after the other.
pub proof fn lemma_key_printed(keys: Seq<Seq<char>>, members: Seq<KeyView>, k: KeyView)
    ensures
        keys.len() == 1 ==> key_repr(KeyView::Single(keys)) == "PartitionKey("@ + quoted(keys[0])
            + ")"@,
        keys.len() != 1 ==> key_repr(KeyView::Single(keys)) == "PartitionKey("@ + quoted_list(keys)
            + ")"@,
        key_repr(KeyView::Batch(members)) == "PartitionKey.Set(["@ + joined(
            keys_repr(members),
            ", "@,
        ) + "])"@,
        keys_repr(Seq::empty()).len() == 0,
        keys_repr(members.push(k)) == keys_repr(members).push(key_repr(k)),
        key_form(KeyView::Single(keys)) == "Single { key: "@ + quoted_list(keys) + " }"@,
        key_form(KeyView::Batch(members)) == "Set { keys: ["@ + joined(keys_form(members), ", "@)
            + "] }"@,
        keys_form(Seq::empty()).len() == 0,
        keys_form(members.push(k)) == keys_form(members).push(key_form(k)),
{
    assert(members.push(k).drop_last() =~= members);
}

/// A key of several dimensions prints them by name, in order, each with its one value or
/// the list of its values.
pub proof fn lemma_dims_printed(m: Map<Seq<char>, Seq<Seq<char>>>, i: int)
    requires
        0 <= i < set_in_order(m.dom()).len(),
    ensures
        ({
            let names = set_in_order(m.dom());
            let parts = dims_repr(m, names);
            &&& key_repr(KeyView::Multi(m)) == "PartitionKey({"@ + joined(parts, ", "@) + "})"@
            &&& parts.len() == names.len()
            &&& m[names[i]].len() == 1 ==> parts[i] == quoted(names[i]) + ": "@ + quoted(
                m[names[i]][0],
            )
            &&& m[names[i]].len() != 1 ==> parts[i] == quoted(names[i]) + ": "@ + quoted_list(
                m[names[i]],
            )
        }),
{
}

/// A range prints its two ends; one of several dimensions prints each with its ends or its
/// keys.
pub proof fn lemma_range_printed(r: PyPartitionKeyRange, name: Seq<char>, sel: SelView)
    ensures
        r.inner matches PartitionKeyRangeInner::Single { from_key, to_key } ==> range_repr(r)
            == "PartitionKeyRange.single(from_key="@ + quoted(from_key@) + ", to_key="@ + quoted(
            to_key@,
        ) + ")"@,
        r.inner matches PartitionKeyRangeInner::Multi { dimensions } ==> {
            let parts = sels_repr(dimensions.entries@);
            &&& range_repr(r) == "PartitionKeyRange.multi({"@ + joined(parts, ", "@) + "})"@
            &&& parts.len() == dimensions.entries@.len()
            &&& forall|i: int|
                0 <= i < parts.len() ==> #[trigger] parts[i] == sel_repr(
                    dimensions.entries@[i].0@,
                    dimensions.entries@[i].1@,
                )
        },
        sel matches SelView::Range(a, b) ==> sel_repr(name, sel) == quoted(name) + ": ("@ + quoted(
            a,
        ) + ", "@ + quoted(b) + ")"@,
        sel matches SelView::Keys(ks) ==> sel_repr(name, sel) == quoted(name) + ": {"@ + joined(
            ks.map_values(|k: Seq<char>| quoted(k)),
            ", "@,
        ) + "}"@,
{
}

/// A scheme prints what it was made from; one of several dimensions prints them in their
/// order.
pub proof fn lemma_scheme_printed(
    d: DefView,
    dims: Seq<(Seq<char>, DefView)>,
    dim: (Seq<char>, DefView),
)
    ensures
        d matches DefView::Static(keys) ==> def_repr(d) == "PartitionsDefinition.static_("@
            + quoted_list(keys) + ")"@,
        d matches DefView::Dynamic(name) ==> def_repr(d) == "PartitionsDefinition.dynamic("@
            + quoted(name) + ")"@,
        d matches DefView::TimeWindow(g) ==> g.cron is Some && g.end is None ==> def_repr(d)
            == "PartitionsDefinition.time_window("@ + ("cron="@ + quoted(g.cron->0)) + ", start="@
            + moment_form(g.start) + ", fmt="@ + quoted(g.fmt) + Seq::empty() + ")"@,
        d matches DefView::TimeWindow(g) ==> g.cron is Some && g.end is Some ==> def_repr(d)
            == "PartitionsDefinition.time_window("@ + ("cron="@ + quoted(g.cron->0)) + ", start="@
            + moment_form(g.start) + ", fmt="@ + quoted(g.fmt) + (", end="@ + moment_form(g.end->0))
            + ")"@,
        d matches DefView::TimeWindow(g) ==> g.cron is None && g.interval is Some && g.end is None
            ==> def_repr(d) == "PartitionsDefinition.time_window("@ + ("interval="@
            + g.interval->0.text + "s"@) + ", start="@ + moment_form(g.start) + ", fmt="@ + quoted(
            g.fmt,
        ) + Seq::empty() + ")"@,
        def_repr(DefView::Multi(dims)) == "PartitionsDefinition.multi({"@ + joined(
            dims_def_repr(dims),
            ", "@,
        ) + "})"@,
        dims_def_repr(Seq::empty()).len() == 0,
        dims_def_repr(dims.push(dim)) == dims_def_repr(dims).push(
            quoted(dim.0) + ": "@ + def_repr(dim.1),
        ),
{
    assert(dims.push(dim).drop_last() =~= dims);
}

/// A mapping prints what it was made from. A dimension that is mapped to one of another
/// name prints both names.
pub proof fn lemma_mapping_printed(
    m: PartitionMapping,
    s: Seq<(String, (String, PartitionMapping))>,
    e: (String, (String, PartitionMapping)),
)
    ensures
        m is Identity ==> mapping_repr(m) == "PartitionMapping.identity()"@,
        m is AllPartitions ==> mapping_repr(m) == "PartitionMapping.all_partitions()"@,
        m is Subset ==> mapping_repr(m) == "PartitionMapping.subset()"@,
        m matches PartitionMapping::TimeWindow { offset } ==> mapping_repr(m)
            == "PartitionMapping.time_window(offset="@ + signed_decimal(offset as int) + ")"@,
        m matches PartitionMapping::SpecificPartitions { partition_keys } ==> mapping_repr(m)
            == "PartitionMapping.specific_partitions("@ + quoted_list(texts(partition_keys@))
            + ")"@,
        m matches PartitionMapping::MultiToSingle { dimension_name, partition_mapping }
            ==> mapping_repr(m) == "PartitionMapping.multi_to_single(dimension_name="@ + quoted(
            dimension_name@,
        ) + ", partition_mapping="@ + mapping_repr(*partition_mapping.0) + ")"@,
        m matches PartitionMapping::Multi { dimension_mappings } ==> mapping_repr(m)
            == "PartitionMapping.multi({"@ + joined(
            entries_repr(dimension_mappings.entries@),
            ", "@,
        ) + "})"@,
        entries_repr(Seq::empty()).len() == 0,
        e.0@ == e.1.0@ ==> entries_repr(s.push(e)) == entries_repr(s).push(
            quoted(e.0@) + ": "@ + mapping_repr(e.1.1),
        ),
        e.0@ != e.1.0@ ==> entries_repr(s.push(e)) == entries_repr(s).push(
            quoted(e.0@) + ": ("@ + quoted(e.1.0@) + ", "@ + mapping_repr(e.1.1) + ")"@,
        ),
{
    assert(s.push(e).drop_last() =~= s);
}

/// A backfill strategy prints which dimensions it takes apart and which together.
pub proof fn lemma_strategy_printed(s: StrategyView)
    ensures
        s is MultiRun ==> strategy_repr(s) == "BackfillStrategy.multi_run()"@,
        s is SingleRun ==> strategy_repr(s) == "BackfillStrategy.single_run()"@,
        s matches StrategyView::PerDimension(a, b) ==> strategy_repr(s)
            == "BackfillStrategy.per_dimension(multi_run="@ + quoted_list(a) + ", single_run="@
            + quoted_list(b) + ")"@,
{
}

/// An executor prints its kind and its limits.
pub proof fn lemma_executor_printed(e: Executor)
    ensures
        e is InProcess ==> executor_repr(e) == "Executor.InProcess()"@,
        e matches Executor::Parallel { max_workers, max_async_concurrent: None } ==> executor_repr(
            e,
        ) == "Executor.Parallel(max_workers="@ + decimal(max_workers as nat) + ")"@,
        e matches Executor::Parallel { max_workers, max_async_concurrent: Some(n) }
            ==> executor_repr(e) == "Executor.Parallel(max_workers="@ + decimal(max_workers as nat)
            + ", max_async_concurrent="@ + decimal(n as nat) + ")"@,
        e matches Executor::Kubernetes { worker_image: Some(i), namespace: Some(n), .. }
            ==> executor_repr(e) == "Executor.Kubernetes(worker_image="@ + ("'"@ + i@ + "'"@)
            + ", namespace="@ + ("'"@ + n@ + "'"@) + ")"@,
        e matches Executor::Kubernetes { worker_image: None, namespace: None, .. }
            ==> executor_repr(e) == "Executor.Kubernetes(worker_image="@ + "auto"@
            + ", namespace="@ + "auto"@ + ")"@,
{
}

/// What is wrong inside a dimension is said with the dimension before it.
pub proof fn lemma_message_in_dimension(dim: Seq<char>, source: MapErrView)
    ensures
        map_message(MapErrView::InDimension(dim, Box::new(source))) == "in dimension '"@ + dim
            + "': "@ + map_message(source),
{
}

/// What is hashed of a key: which kind it is, then every text of it in order. Inside a
/// batch the number of texts comes before them.
pub proof fn lemma_key_hashed(keys: Seq<Seq<char>>, members: Seq<KeyView>, k: KeyView)
    ensures
        key_parts(KeyView::Single(keys), false) == seq![PartView::Tag(0)] + keys.map_values(
            |t: Seq<char>| PartView::Text(t),
        ),
        key_parts(KeyView::Single(keys), true) == seq![
            PartView::Variant(0),
            PartView::Count(keys.len() as int),
        ] + keys.map_values(|t: Seq<char>| PartView::Text(t)),
        key_parts(KeyView::Batch(members), false) == seq![PartView::Tag(2)] + members_parts(
            members,
        ),
        members_parts(Seq::empty()).len() == 0,
        members_parts(members.push(k)) == members_parts(members) + key_parts(k, true),
{
    let f = |t: Seq<char>| PartView::Text(t);
    assert(members.push(k).drop_last() =~= members);
    assert(key_parts(KeyView::Single(keys), false) =~= seq![PartView::Tag(0)] + keys.map_values(
        f,
    ));
    assert(key_parts(KeyView::Single(keys), true) =~= seq![
        PartView::Variant(0),
        PartView::Count(keys.len() as int),
    ] + keys.map_values(f));
}

/// What is hashed of a dimension of a key: its name and its values, behind those of the
/// names before it.
pub proof fn lemma_dims_hashed(
    m: Map<Seq<char>, Seq<Seq<char>>>,
    names: Seq<Seq<char>>,
    name: Seq<char>,
)
    ensures
        key_parts(KeyView::Multi(m), false) == seq![PartView::Tag(1)] + dims_parts(
            m,
            set_in_order(m.dom()),
            false,
        ),
        dims_parts(m, Seq::empty(), false).len() == 0,
        dims_parts(m, names.push(name), false) == dims_parts(m, names, false) + seq![
            PartView::Text(name),
        ] + m[name].map_values(|t: Seq<char>| PartView::Text(t)),
{
    assert(names.push(name).drop_last() =~= names);
    assert(listed_parts(m[name], false) =~= m[name].map_values(|t: Seq<char>| PartView::Text(t)));
    assert(dims_parts(m, names.push(name), false) =~= dims_parts(m, names, false) + seq![
        PartView::Text(name),
    ] + m[name].map_values(|t: Seq<char>| PartView::Text(t)));
}

} // verus!
