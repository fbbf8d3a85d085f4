//! What holds of mapped steps: the instances that they fan out into, how these are rolled
//! up, and what a collecting step reads.
use vstd::prelude::*;
use crate::executor::batch::{BatchView, EffectView};
use crate::executor::classify::{implicit_pools, own_pools, step_scope};
use crate::executor::events::{plain_event, TypeView};
use crate::executor::obj::Obj;
use crate::executor::orchestrate::{concurrency_of, 
    all_instances_failed, all_rolled_up, collect_of, collects_of, instance_keys, instance_name_of,
    key_lookup, level_batches, mapped_instances, rolled_up, single_instance, source_fault,
    step_named, GroupView, InstanceView, MappedStepRecord, Source, SourceItem,
};
use crate::executor::plan::{event_names_of, ExecutionStep, NodeInfo, StepKind};
use crate::text::{decimal, texts};

verus! {

/// The name of an instance is that of its step, two underscores and its key; instances of
/// one step with different keys have different names.
pub proof fn lemma_instance_name(step: Seq<char>, key: Seq<char>, other: Seq<char>)
    ensures
        instance_name_of(step, key) == step + "__"@ + key,
        instance_name_of(step, key) == instance_name_of(step, other) ==> key == other,
{
    let a = instance_name_of(step, key);
    let b = instance_name_of(step, other);
    let n = step.len() + "__"@.len();
    assert(a.skip(n as int) =~= key);
    assert(b.skip(n as int) =~= other);
}

/// A mapped step fails where any of its instances did: its failure is recorded, and it has
/// failed from then on. Else its success is recorded and its mapped keys are exactly the
/// keys of its instances. Nothing else of the run changes.
pub proof fn lemma_rolled_up(b: BatchView, step: Seq<char>, keys: Seq<Seq<char>>, ts: i64)
    ensures
        ({
            let r = rolled_up(b, step, keys, ts);
            let failed = exists|i: int|
                0 <= i < keys.len() && b.failed.contains(step + "__"@ + #[trigger] keys[i]);
            &&& failed ==> r == (BatchView {
                failed: b.failed.insert(step),
                effects: b.effects.push(
                    EffectView::Event(
                        plain_event(
                            TypeView::StepFailure("One or more map instances failed"@, None),
                            b.origin,
                            step,
                            ts,
                        ),
                    ),
                ),
                ..b
            })
            &&& !failed ==> r == (BatchView {
                mapped: b.mapped.insert(step, keys),
                effects: b.effects.push(
                    EffectView::Event(plain_event(TypeView::StepSuccess, b.origin, step, ts)),
                ),
                ..b
            })
        }),
{
    crate::executor::orchestrate::lemma_surviving_keys(b, step, keys);
    if forall|i: int|
        0 <= i < keys.len() ==> !b.failed.contains(instance_name_of(step, #[trigger] keys[i])) {
        assert forall|i: int| 0 <= i < keys.len() implies !b.failed.contains(
            step + "__"@ + #[trigger] keys[i],
        ) by {
            assert(!b.failed.contains(instance_name_of(step, keys[i])));
        }
    } else {
        let i = choose|i: int|
            0 <= i < keys.len() && b.failed.contains(instance_name_of(step, #[trigger] keys[i]));
        assert(b.failed.contains(step + "__"@ + keys[i]));
    }
}

/// The mapped steps of a level are rolled up one after the other, each in the run that the
/// ones before it left: one fails, and is recorded as failed, exactly where one of its
/// instances has failed by then; else its success is recorded, what has failed stays as it
/// is, and its mapped keys are exactly its keys. What has failed stays failed.
pub proof fn lemma_all_rolled_up(
    b: BatchView,
    steps: Seq<ExecutionStep>,
    records: Seq<MappedStepRecord>,
    ts: i64,
    n: int,
)
    requires
        0 <= n < records.len(),
    ensures
        ({
            let before = all_rolled_up(b, steps, records.take(n), ts);
            let after = all_rolled_up(b, steps, records.take(n + 1), ts);
            let end = all_rolled_up(b, steps, records, ts);
            let step = steps[records[n].idx as int].name@;
            let keys = texts(records[n].keys@);
            let failed = exists|i: int|
                0 <= i < keys.len() && before.failed.contains(step + "__"@ + #[trigger] keys[i]);
            &&& n == 0 ==> before == b
            &&& n + 1 == records.len() ==> after == end
            &&& after.failed.subset_of(end.failed)
            &&& failed ==> {
                &&& end.failed.contains(step)
                &&& after.failed == before.failed.insert(step)
                &&& after.mapped == before.mapped
                &&& after.effects == before.effects.push(
                    EffectView::Event(
                        plain_event(
                            TypeView::StepFailure("One or more map instances failed"@, None),
                            b.origin,
                            step,
                            ts,
                        ),
                    ),
                )
            }
            &&& !failed ==> {
                &&& after.failed == before.failed
                &&& after.mapped == before.mapped.insert(step, keys)
                &&& after.effects == before.effects.push(
                    EffectView::Event(plain_event(TypeView::StepSuccess, b.origin, step, ts)),
                )
            }
            &&& after == (BatchView {
                failed: after.failed,
                mapped: after.mapped,
                effects: after.effects,
                ..b
            })
        }),
{
    let part = records.take(n + 1);
    assert(part.drop_last() =~= records.take(n));
    assert(part.last() == records[n]);
    let before = all_rolled_up(b, steps, records.take(n), ts);
    lemma_rolled_up(before, steps[records[n].idx as int].name@, texts(records[n].keys@), ts);
    lemma_rolled_frame(b, steps, records.take(n), ts);
    lemma_rolled_on(b, steps, records, ts, n + 1);
    if n == 0 {
        assert(records.take(0) =~= Seq::empty());
    }
    if n + 1 == records.len() {
        assert(part =~= records);
    }
}

proof fn lemma_rolled_frame(
    b: BatchView,
    steps: Seq<ExecutionStep>,
    records: Seq<MappedStepRecord>,
    ts: i64,
)
    ensures
        ({
            let r = all_rolled_up(b, steps, records, ts);
            r == (BatchView { failed: r.failed, mapped: r.mapped, effects: r.effects, ..b })
        }),
    decreases records.len(),
{
    if records.len() > 0 {
        let w = records.drop_last();
        lemma_rolled_frame(b, steps, w, ts);
        lemma_rolled_up(
            all_rolled_up(b, steps, w, ts),
            steps[records.last().idx as int].name@,
            texts(records.last().keys@),
            ts,
        );
    }
}

proof fn lemma_rolled_on(
    b: BatchView,
    steps: Seq<ExecutionStep>,
    records: Seq<MappedStepRecord>,
    ts: i64,
    n: int,
)
    requires
        0 <= n <= records.len(),
    ensures
        all_rolled_up(b, steps, records.take(n), ts).failed.subset_of(
            all_rolled_up(b, steps, records, ts).failed,
        ),
    decreases records.len() - n,
{
    if n < records.len() {
        let part = records.take(n + 1);
        assert(part.drop_last() =~= records.take(n));
        assert(part.last() == records[n]);
        lemma_rolled_up(
            all_rolled_up(b, steps, records.take(n), ts),
            steps[records[n].idx as int].name@,
            texts(records[n].keys@),
            ts,
        );
        lemma_rolled_on(b, steps, records, ts, n + 1);
    } else {
        assert(records.take(n) =~= records);
    }
}

/// The predefined keys of a source are those that it produced here, unless it produced
/// none; those under its data version are asked for only where it did not run here.
pub proof fn lemma_key_lookup(b: BatchView, source: Seq<char>)
    ensures
        b.dynamic.dom().contains(source) && b.dynamic[source].len() > 0 ==> key_lookup(b, source)
            == (Some(b.dynamic[source]), None::<Seq<char>>),
        b.dynamic.dom().contains(source) && b.dynamic[source].len() == 0 ==> key_lookup(b, source)
            == (None::<Seq<Seq<char>>>, None::<Seq<char>>),
        !b.dynamic.dom().contains(source) && b.versions.dom().contains(source) ==> key_lookup(
            b,
            source,
        ) == (None::<Seq<Seq<char>>>, Some(b.versions[source])),
        !b.dynamic.dom().contains(source) && !b.versions.dom().contains(source) ==> key_lookup(
            b,
            source,
        ) == (None::<Seq<Seq<char>>>, None::<Seq<char>>),
{
}

/// A mapped step has one instance for each item of its source, in their order. The key of
/// an instance is the predefined one at its place and its value the item as it came; without
/// predefined keys a dynamic output has its own key and value, any other item its number and
/// itself. An instance reports under its own name, and claims, is scoped and runs as its
/// step does.
pub proof fn lemma_fanned_out(
    b: BatchView,
    nodes: Map<Seq<char>, NodeInfo>,
    verb: Option<Seq<char>>,
    step: ExecutionStep,
    idx: int,
    source: Seq<char>,
    keys: Option<Seq<Seq<char>>>,
    items: Seq<SourceItem>,
    i: int,
)
    requires
        0 <= i < items.len(),
    ensures
        ({
            let all = mapped_instances(b, nodes, verb, step, idx, source, keys, items);
            let one = all[i];
            let key = if keys is Some {
                keys->0[i]
            } else if items[i].dynamic is Some {
                (items[i].dynamic->0).0@
            } else {
                decimal(i as nat)
            };
            let value = if keys is None && items[i].dynamic is Some {
                (items[i].dynamic->0).1
            } else {
                items[i].item
            };
            &&& all.len() == items.len()
            &&& one.idx == idx
            &&& one.key == Some(key)
            &&& one.name == step.name@ + "__"@ + key
            &&& one.event_names == seq![one.name]
            &&& one.fan_out == Some((source, value))
            &&& one.is_async == (nodes.dom().contains(step.name@) && nodes[step.name@].is_async)
            &&& one.pools == own_pools(nodes, step.name@) + implicit_pools(nodes, verb, step)
            &&& one.scope == step_scope(b, nodes, verb, step)
        }),
{
}

/// A step that runs once has one instance, under its own name, without a key or an item;
/// it reports under the names of the step.
pub proof fn lemma_runs_once(
    b: BatchView,
    nodes: Map<Seq<char>, NodeInfo>,
    verb: Option<Seq<char>>,
    step: ExecutionStep,
    idx: int,
)
    ensures
        ({
            let one = single_instance(b, nodes, verb, step, idx);
            &&& one.idx == idx
            &&& one.name == step.name@
            &&& one.key is None
            &&& one.event_names == event_names_of(step)
            &&& one.fan_out is None
            &&& one.is_async == (nodes.dom().contains(step.name@) && nodes[step.name@].is_async)
            &&& one.pools == own_pools(nodes, step.name@) + implicit_pools(nodes, verb, step)
            &&& one.scope == step_scope(b, nodes, verb, step)
        }),
{
}

/// A source that cannot be loaded, gone through or read to its end fails its mapped step;
/// one with items does not, however many they are.
pub proof fn lemma_source_fault(s: Source)
    ensures
        s is Items <==> source_fault(s) is None,
        s matches Source::LoadFailed(e) ==> source_fault(s) == Some(
            "Failed to load fan-out source: "@ + e@,
        ),
        s matches Source::NotIterable(e) ==> source_fault(s) == Some(
            "Fan-out source is not iterable: "@ + e@,
        ),
        s matches Source::IterationFailed(e) ==> source_fault(s) == Some(
            "Failed to iterate fan-out source: "@ + e@,
        ),
{
}

/// The keys of the instances of a mapped step, as they are rolled up, are those that the
/// instances were made with, one each and in order.
pub proof fn lemma_rolled_up_keys(
    b: BatchView,
    nodes: Map<Seq<char>, NodeInfo>,
    verb: Option<Seq<char>>,
    step: ExecutionStep,
    idx: int,
    source: Seq<char>,
    keys: Option<Seq<Seq<char>>>,
    items: Seq<SourceItem>,
)
    ensures
        ({
            let all = mapped_instances(b, nodes, verb, step, idx, source, keys, items);
            &&& instance_keys(all).len() == items.len()
            &&& forall|i: int|
                0 <= i < items.len() ==> (#[trigger] all[i]).name == step.name@ + "__"@
                    + instance_keys(all)[i]
        }),
{
    let all = mapped_instances(b, nodes, verb, step, idx, source, keys, items);
    assert forall|i: int| 0 <= i < all.len() implies (#[trigger] all[i]).key is Some by {}
    crate::executor::orchestrate::lemma_instance_keys(all);
    assert forall|i: int| 0 <= i < items.len() implies (#[trigger] all[i]).name == step.name@
        + "__"@ + instance_keys(all)[i] by {
        assert(instance_keys(all)[i] == all[i].key->0);
    }
}

/// Failing the instances of a batch leaves, for each in order, its failure, the failure
/// hooks of its step's node under its name, and the error to report; each has failed from
/// then on, and nothing else.
pub proof fn lemma_instances_failed(
    b: BatchView,
    nodes: Map<Seq<char>, NodeInfo>,
    steps: Seq<ExecutionStep>,
    instances: Seq<InstanceView>,
    msg: Seq<char>,
    ts: i64,
)
    ensures
        ({
            let r = all_instances_failed(b, nodes, steps, instances, msg, ts);
            &&& r == (BatchView {
                failed: r.failed,
                failures: r.failures,
                effects: r.effects,
                ..b
            })
            &&& r.failures == b.failures + instances.map_values(
                |i: InstanceView|
                    (
                        i.name,
                        (
                            None::<Obj>,
                            crate::errors::fault_text((crate::errors::FaultKind::Execution, msg)),
                        ),
                    ),
            )
            &&& r.effects == b.effects + instances.map_values(
                |i: InstanceView| instance_failure(b, nodes, steps, i, msg, ts),
            ).flatten_alt()
            &&& forall|n: Seq<char>| #[trigger]
                r.failed.contains(n) <==> b.failed.contains(n) || exists|i: int|
                    0 <= i < instances.len() && (#[trigger] instances[i]).name == n
        }),
    decreases instances.len(),
{
    let r = all_instances_failed(b, nodes, steps, instances, msg, ts);
    let f = |i: InstanceView| instance_failure(b, nodes, steps, i, msg, ts);
    let g = |i: InstanceView|
        (
            i.name,
            (
                None::<Obj>,
                crate::errors::fault_text((crate::errors::FaultKind::Execution, msg)),
            ),
        );
    let all = instances.map_values(f);
    if instances.len() > 0 {
        let w = instances.drop_last();
        lemma_instances_failed(b, nodes, steps, w, msg, ts);
        assert(all.drop_last() =~= w.map_values(f));
        assert(all.last() == f(instances.last()));
        assert(r.effects =~= b.effects + all.flatten_alt());
        assert(r.failures =~= b.failures + instances.map_values(g));
        assert forall|n: Seq<char>| #[trigger] r.failed.contains(n) <==> b.failed.contains(n)
            || exists|i: int| 0 <= i < instances.len() && (#[trigger] instances[i]).name == n by {
            if exists|i: int| 0 <= i < w.len() && (#[trigger] w[i]).name == n {
                let i = choose|i: int| 0 <= i < w.len() && (#[trigger] w[i]).name == n;
                assert(instances[i].name == n);
            }
            if exists|i: int| 0 <= i < instances.len() && (#[trigger] instances[i]).name == n {
                let i = choose|i: int|
                    0 <= i < instances.len() && (#[trigger] instances[i]).name == n;
                if i < w.len() {
                    assert(w[i].name == n);
                }
            }
            assert(instances[instances.len() - 1] == instances.last());
        }
    } else {
        assert(r.effects =~= b.effects + all.flatten_alt());
        assert(r.failures =~= b.failures + instances.map_values(g));
    }
}

/// What the failure of an instance leaves: its record, and the failure hooks of the node of
/// its step, where it has any.
pub open spec fn instance_failure(
    b: BatchView,
    nodes: Map<Seq<char>, NodeInfo>,
    steps: Seq<ExecutionStep>,
    i: InstanceView,
    msg: Seq<char>,
    ts: i64,
) -> Seq<EffectView> {
    let node = steps[i.idx].name@;
    let record = EffectView::Event(
        plain_event(TypeView::StepFailure(msg, None), b.origin, i.name, ts),
    );
    if nodes.dom().contains(node) && nodes[node].has_failure_hooks {
        seq![record, EffectView::FailureHooks(node, i.name, msg, None)]
    } else {
        seq![record]
    }
}

/// The batches of a level are the steps that run once, together and without a limit, where
/// there are any, and then each mapped step by itself, in order and with its own limit.
pub proof fn lemma_level_batches(singles: Seq<InstanceView>, groups: Seq<GroupView>)
    ensures
        ({
            let r = level_batches(singles, groups);
            let first = if singles.len() > 0 {
                1int
            } else {
                0int
            };
            &&& r.len() == first + groups.len()
            &&& singles.len() > 0 ==> r[0].0 == singles && r[0].1 is None
            &&& forall|i: int|
                0 <= i < groups.len() ==> r[first + i].0 == (#[trigger] groups[i]).1 && r[first
                    + i].1 == groups[i].2
        }),
{
}

/// The step of a name is the last of the plan that has it.
pub proof fn lemma_step_named(steps: Seq<ExecutionStep>, name: Seq<char>)
    ensures
        match step_named(steps, name) {
            Some(s) => exists|i: int|
                0 <= i < steps.len() && s == #[trigger] steps[i] && s.name@ == name && forall|
                    j: int,
                |
                    i < j < steps.len() ==> (#[trigger] steps[j]).name@ != name,
            None => forall|i: int| 0 <= i < steps.len() ==> (#[trigger] steps[i]).name@ != name,
        },
    decreases steps.len(),
{
    if steps.len() > 0 {
        let w = steps.drop_last();
        if steps.last().name@ == name {
            assert(steps[steps.len() - 1] == steps.last());
        } else {
            lemma_step_named(w, name);
            match step_named(w, name) {
                Some(s) => {
                    let i = choose|i: int|
                        0 <= i < w.len() && s == #[trigger] w[i] && s.name@ == name && forall|
                            j: int,
                        |
                            i < j < w.len() ==> (#[trigger] w[j]).name@ != name;
                    assert(steps[i] == s);
                    assert forall|j: int| i < j < steps.len() implies (#[trigger] steps[j]).name@
                        != name by {
                        if j < w.len() {
                            assert(w[j].name@ != name);
                        }
                    }
                },
                None => {
                    assert forall|i: int| 0 <= i < steps.len() implies (#[trigger] steps[i]).name@
                        != name by {
                        if i < w.len() {
                            assert(w[i].name@ != name);
                        }
                    }
                },
            }
        }
    }
}

/// A dependency stands for the outputs of a mapped step exactly where it is a collecting
/// step: under its own name, and with one instance for each recorded mapped key, in order.
pub proof fn lemma_collected(b: BatchView, steps: Seq<ExecutionStep>, dep: Seq<char>)
    ensures
        ({
            let r = collect_of(b, steps, dep);
            let found = step_named(steps, dep);
            &&& found is None ==> r is None
            &&& found matches Some(s) ==> {
                let mapped = match s.kind {
                    StepKind::Collect { mapped_step } => Some((mapped_step@, false)),
                    StepKind::CollectStream { mapped_step, .. } => Some((mapped_step@, true)),
                    _ => None,
                };
                &&& mapped is None ==> r is None
                &&& mapped matches Some(m) ==> {
                    let keys = if b.mapped.dom().contains(m.0) {
                        b.mapped[m.0]
                    } else {
                        Seq::empty()
                    };
                    &&& r is Some
                    &&& r->0.name == dep
                    &&& r->0.mapped_step == m.0
                    &&& r->0.stream == m.1
                    &&& r->0.instances == keys.map_values(|k: Seq<char>| m.0 + "__"@ + k)
                }
            }
        }),
{
    lemma_step_named(steps, dep);
    if let Some(c) = collect_of(b, steps, dep) {
        let keys = if b.mapped.dom().contains(c.mapped_step) {
            b.mapped[c.mapped_step]
        } else {
            Seq::empty()
        };
        assert(c.instances =~= keys.map_values(|k: Seq<char>| c.mapped_step + "__"@ + k));
    }
}

/// The collected inputs of a step are those of its dependencies that are any, in order.
pub proof fn lemma_collects(b: BatchView, steps: Seq<ExecutionStep>, deps: Seq<Seq<char>>)
    ensures
        collects_of(b, steps, deps) == deps.filter_map(|d: Seq<char>| collect_of(b, steps, d)),
    decreases deps.len(),
{
    let f = |d: Seq<char>| collect_of(b, steps, d);
    if deps.len() > 0 {
        lemma_collects(b, steps, deps.drop_last());
        if let Some(c) = f(deps.last()) {
            assert(collects_of(b, steps, deps) =~= deps.drop_last().filter_map(f) + seq![c]);
        }
    }
}

/// A step that collects the outputs of a mapped step that was rolled up reads the outputs of
/// exactly the instances of that step, none of which has failed.
pub proof fn lemma_collects_survivors(
    b: BatchView,
    steps: Seq<ExecutionStep>,
    dep: Seq<char>,
    mapped_step: Seq<char>,
    keys: Seq<Seq<char>>,
    ts: i64,
)
    requires
        collect_of(rolled_up(b, mapped_step, keys, ts), steps, dep) matches Some(c)
            && c.mapped_step == mapped_step,
        !rolled_up(b, mapped_step, keys, ts).failed.contains(mapped_step),
    ensures
        ({
            let c = collect_of(rolled_up(b, mapped_step, keys, ts), steps, dep)->0;
            &&& c.instances == keys.map_values(|k: Seq<char>| mapped_step + "__"@ + k)
            &&& forall|i: int|
                0 <= i < c.instances.len() ==> !b.failed.contains(#[trigger] c.instances[i])
        }),
{
    let r = rolled_up(b, mapped_step, keys, ts);
    lemma_rolled_up(b, mapped_step, keys, ts);
    lemma_collected(r, steps, dep);
    let c = collect_of(r, steps, dep)->0;
    assert forall|i: int| 0 <= i < c.instances.len() implies !b.failed.contains(
        #[trigger] c.instances[i],
    ) by {
        assert(c.instances[i] == mapped_step + "__"@ + keys[i]);
    }
}

/// Only a mapped step limits how many of its instances run at once, by what it says.
pub proof fn lemma_concurrency(step: ExecutionStep)
    ensures
        step.kind matches StepKind::Mapped { max_concurrency, .. } ==> concurrency_of(step)
            == max_concurrency,
        !(step.kind is Mapped) ==> concurrency_of(step) is None,
{
}

} // verus!
