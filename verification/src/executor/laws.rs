//! What every operation on a run keeps: its identity, the records that were written,
//! the names that have failed and the failures that were reported.
use vstd::prelude::*;
use crate::executor::batch::{
    event_for_each, failed_marked, keyed_event, lemma_keyed_event_frame, logged, recorded_failure,
    BatchView, ErrView,
};
use crate::executor::classify::{
    classified_step, skipped_names, some_in, step_verdict, Verdict,
};
use crate::executor::events::{ClassView, EventView};
use crate::executor::kubernetes::pods_ended;
use crate::executor::obj::Obj;
use crate::executor::orchestrate::{
    all_instances_failed, all_rolled_up, InstanceView, MappedStepRecord,
};
use crate::executor::parallel::each_failed;
use crate::executor::plan::{event_names_of, ExecutionStep, NodeInfo};
use crate::executor::plan_run::{group_unrunnable, names_unrunnable};
use crate::executor::results::{
    failed_all, finished_result, handled_failure, is_single, kept_keys, lemma_not_yielded,
    materialization, materialized, names_to_fail, not_yielded, observation, observed,
    reported_missing, stashed, worker_outputs_recorded, worker_replied, RunView, WorkerOutput,
    WorkerReply,
};
use crate::partitions::key::KeyView;
use crate::partitions::members::members_of;
use crate::text::texts;

verus! {

/// Whether a run has gone on from another: nothing that was written, failed or
/// reported is taken back.
pub open spec fn goes_on(a: BatchView, b: BatchView) -> bool {
    &&& a.origin == b.origin
    &&& a.partition == b.partition
    &&& a.is_action == b.is_action
    &&& a.own_class == b.own_class
    &&& a.effects.is_prefix_of(b.effects)
    &&& a.failures.is_prefix_of(b.failures)
    &&& a.failed.subset_of(b.failed)
}

/// A run goes on from itself, and from whatever it went on from before.
pub proof fn lemma_goes_on(a: BatchView, b: BatchView, c: BatchView)
    ensures
        goes_on(a, a),
        goes_on(a, b) && goes_on(b, c) ==> goes_on(a, c),
{
}

proof fn lemma_recorded(b: BatchView, step: Seq<char>, e: ErrView, class: ClassView, ts: i64)
    ensures
        goes_on(b, recorded_failure(b, step, e, class, ts)),
        recorded_failure(b, step, e, class, ts).failed.contains(step),
{
}

proof fn lemma_marked(
    b: BatchView,
    step: Seq<char>,
    members: Seq<KeyView>,
    marks: Seq<(KeyView, Seq<char>)>,
    ts: i64,
)
    ensures
        goes_on(b, failed_marked(b, step, members, marks, ts)),
    decreases members.len(),
{
    if members.len() > 0 {
        lemma_marked(b, step, members.drop_last(), marks, ts);
    }
}

proof fn lemma_each(b: BatchView, keys: Seq<KeyView>, e: EventView)
    ensures
        goes_on(b, event_for_each(b, keys, e)),
    decreases keys.len(),
{
    if keys.len() > 0 {
        lemma_each(b, keys.drop_last(), e);
    }
}

/// Writing the record of a step keeps what was there.
pub proof fn lemma_keyed_goes_on(b: BatchView, step: Seq<char>, e: EventView)
    ensures
        goes_on(b, keyed_event(b, step, e)),
{
    if let Some(pk) = b.partition {
        let marks = crate::executor::batch::marks_of(b, step);
        let m = failed_marked(b, step, members_of(pk), marks, e.ts);
        lemma_marked(b, step, members_of(pk), marks, e.ts);
        lemma_each(m, crate::executor::batch::unmarked(members_of(pk), marks), e);
        lemma_goes_on(b, m, keyed_event(b, step, e));
    }
}

/// Recording a materialization keeps what was there, and its data version is known
/// from then on.
pub proof fn lemma_materialized_goes_on(
    b: BatchView,
    nodes: Map<Seq<char>, NodeInfo>,
    node: Seq<char>,
    name: Seq<char>,
    metadata: Seq<(Seq<char>, Seq<char>)>,
    version: Seq<char>,
    inputs: Seq<(Seq<char>, Seq<char>)>,
    output: Obj,
    config: Option<Obj>,
    ts: i64,
)
    ensures
        goes_on(
            b,
            materialized(
                b,
                nodes,
                node,
                name,
                metadata,
                version,
                inputs,
                output,
                config,
                ts,
            ),
        ),
        materialized(
            b,
            nodes,
            node,
            name,
            metadata,
            version,
            inputs,
            output,
            config,
            ts,
        ).versions == b.versions.insert(name, version),
{
    let e = materialization(b, name, metadata, Some(version), inputs, ts);
    lemma_keyed_goes_on(b, name, e);
    lemma_keyed_event_frame(b, name, e);
}

/// Recording an observation keeps what was there.
pub proof fn lemma_observed_goes_on(
    b: BatchView,
    name: Seq<char>,
    metadata: Seq<(Seq<char>, Seq<char>)>,
    version: Option<Seq<char>>,
    keep: bool,
    ts: i64,
)
    ensures
        goes_on(b, observed(b, name, metadata, version, keep, ts)),
{
    lemma_keyed_goes_on(b, name, observation(b, name, metadata, version, ts));
}

proof fn lemma_failed_all(
    b: BatchView,
    names: Seq<Seq<char>>,
    error: Seq<char>,
    class: ClassView,
    ts: i64,
)
    ensures
        goes_on(b, failed_all(b, names, error, class, ts)),
        forall|n: Seq<char>| #[trigger]
            names.contains(n) ==> failed_all(b, names, error, class, ts).failed.contains(n),
    decreases names.len(),
{
    if names.len() > 0 {
        let w = names.drop_last();
        lemma_failed_all(b, w, error, class, ts);
        assert forall|n: Seq<char>| #[trigger] names.contains(n) implies failed_all(
            b,
            names,
            error,
            class,
            ts,
        ).failed.contains(n) by {
            let i = choose|i: int| 0 <= i < names.len() && names[i] == n;
            if i < w.len() {
                assert(w[i] == n);
                assert(w.contains(n));
            }
        }
    }
}

/// The failure of a step keeps what was there, marks each of its names, and is
/// reported.
pub proof fn lemma_failure_goes_on(
    b: BatchView,
    nodes: Map<Seq<char>, NodeInfo>,
    node: Seq<char>,
    hook_name: Seq<char>,
    names: Seq<Seq<char>>,
    e: ErrView,
    class: ClassView,
    config: Option<Obj>,
    ts: i64,
)
    ensures
        ({
            let r = handled_failure(b, nodes, node, hook_name, names, e, class, config, ts);
            &&& goes_on(b, r)
            &&& r.failures == b.failures.push((hook_name, e))
            &&& forall|n: Seq<char>| #[trigger] names.contains(n) ==> r.failed.contains(n)
        }),
{
    lemma_failed_all(b, names, e.1, class, ts);
    lemma_failed_all_failures(b, names, e.1, class, ts);
}

proof fn lemma_failed_all_failures(
    b: BatchView,
    names: Seq<Seq<char>>,
    error: Seq<char>,
    class: ClassView,
    ts: i64,
)
    ensures
        failed_all(b, names, error, class, ts).failures == b.failures,
    decreases names.len(),
{
    if names.len() > 0 {
        lemma_failed_all_failures(b, names.drop_last(), error, class, ts);
    }
}

proof fn lemma_missing_goes_on(b: BatchView, names: Seq<Seq<char>>, ts: i64)
    ensures
        goes_on(b, reported_missing(b, names, ts)),
        forall|n: Seq<char>| #[trigger]
            names.contains(n) ==> reported_missing(b, names, ts).failed.contains(n),
    decreases names.len(),
{
    if names.len() > 0 {
        let w = names.drop_last();
        lemma_missing_goes_on(b, w, ts);
        assert forall|n: Seq<char>| #[trigger] names.contains(n) implies reported_missing(
            b,
            names,
            ts,
        ).failed.contains(n) by {
            let i = choose|i: int| 0 <= i < names.len() && names[i] == n;
            if i < w.len() {
                assert(w[i] == n);
                assert(w.contains(n));
            }
        }
    }
}

/// When the outputs of a step have been gone through, nothing that was there is lost,
/// and each output of a step with several has been recorded or has failed.
pub proof fn lemma_finished_goes_on(
    b: BatchView,
    run: RunView,
    nodes: Map<Seq<char>, NodeInfo>,
    step: ExecutionStep,
    error: Option<(ErrView, ClassView)>,
    config: Option<Obj>,
    ts: i64,
)
    ensures
        ({
            let r = finished_result(b, run, nodes, step, step.name@, error, config, ts);
            &&& goes_on(b, r)
            &&& !is_single(step) ==> forall|n: Seq<char>| #[trigger]
                texts(step.outputs@).contains(n) ==> run.yielded.contains(n) || r.failed.contains(
                    n,
                )
            &&& is_single(step) && error is Some ==> r.failed.contains(step.name@)
        }),
{
    let outputs = texts(step.outputs@);
    lemma_not_yielded(outputs, run.yielded);
    match error {
        Some(e) => {
            let names = names_to_fail(step, step.name@, run);
            lemma_failure_goes_on(
                b,
                nodes,
                step.name@,
                step.name@,
                names,
                e.0,
                e.1,
                config,
                ts,
            );
            if is_single(step) {
                assert(event_names_of(step)[0] == step.name@);
                assert(names.contains(step.name@));
            } else {
                let r = finished_result(b, run, nodes, step, step.name@, error, config, ts);
                assert forall|n: Seq<char>| #[trigger] outputs.contains(n) implies
                    run.yielded.contains(n) || r.failed.contains(n) by {
                    if !run.yielded.contains(n) {
                        assert(not_yielded(outputs, run.yielded).contains(n));
                        assert(names.contains(n));
                    }
                }
            }
        },
        None => {
            if !is_single(step) {
                lemma_missing_goes_on(b, not_yielded(outputs, run.yielded), ts);
                let r = finished_result(b, run, nodes, step, step.name@, error, config, ts);
                assert forall|n: Seq<char>| #[trigger] outputs.contains(n) implies
                    run.yielded.contains(n) || r.failed.contains(n) by {
                    if !run.yielded.contains(n) {
                        assert(not_yielded(outputs, run.yielded).contains(n));
                    }
                }
            }
        },
    }
}

/// The reply of a worker keeps what was there.
pub proof fn lemma_worker_goes_on(
    b: BatchView,
    nodes: Map<Seq<char>, NodeInfo>,
    step: ExecutionStep,
    step_name: Seq<char>,
    reply: WorkerReply,
    inputs: Seq<(Seq<char>, Seq<char>)>,
    config: Option<Obj>,
    ts: i64,
)
    ensures
        goes_on(b, worker_replied(b, nodes, step, step_name, reply, inputs, config, ts)),
{
    let spoken = logged(b, step_name, crate::executor::events::opt_logs(reply.captured_logs), ts);
    assert(goes_on(b, spoken));
    match reply.outputs {
        Err(e) => {
            lemma_recorded(spoken, step_name, e.0@, e.1@, ts);
        },
        Ok(items) => {
            let kept = stashed(
                spoken,
                step,
                crate::executor::batch::marks_view(reply.failed_partitions@),
            );
            assert(goes_on(spoken, kept));
            lemma_worker_outputs(
                kept,
                nodes,
                step,
                step_name,
                items@,
                if is_single(step) {
                    crate::executor::results::opt_texts(reply.dynamic_keys)
                } else {
                    None
                },
                inputs,
                config,
                ts,
            );
        },
    }
}

proof fn lemma_worker_outputs(
    b: BatchView,
    nodes: Map<Seq<char>, NodeInfo>,
    step: ExecutionStep,
    step_name: Seq<char>,
    items: Seq<(WorkerOutput, String)>,
    keys: Option<Seq<Seq<char>>>,
    inputs: Seq<(Seq<char>, Seq<char>)>,
    config: Option<Obj>,
    ts: i64,
)
    ensures
        goes_on(
            b,
            worker_outputs_recorded(
                b,
                nodes,
                step,
                step_name,
                items,
                keys,
                inputs,
                config,
                ts,
            ),
        ),
    decreases items.len(),
{
    if items.len() > 0 {
        lemma_worker_outputs(
            b,
            nodes,
            step,
            step_name,
            items.drop_last(),
            keys,
            inputs,
            config,
            ts,
        );
        let before = worker_outputs_recorded(
            b,
            nodes,
            step,
            step_name,
            items.drop_last(),
            keys,
            inputs,
            config,
            ts,
        );
        match items.last().0 {
            Ok(item) => {
                if item.kind == crate::executor::outputs::ResultKind::Observation {
                    lemma_observed_goes_on(
                        before,
                        item.name@,
                        crate::executor::events::pairs_view(item.metadata@),
                        crate::partitions::grid::opt_text(item.data_version),
                        true,
                        ts,
                    );
                } else {
                    let version = crate::executor::results::final_version(
                        None,
                        crate::partitions::grid::opt_text(item.data_version),
                        items.last().1@,
                    );
                    let mid = if is_single(step) && item.kind
                        == crate::executor::outputs::ResultKind::Output {
                        kept_keys(before, item.name@, version, keys)
                    } else {
                        before
                    };
                    assert(goes_on(before, mid));
                    lemma_materialized_goes_on(
                        mid,
                        nodes,
                        crate::executor::results::output_node(step, item.name@),
                        item.name@,
                        crate::executor::events::pairs_view(item.metadata@),
                        version,
                        inputs,
                        Obj(crate::executor::obj::NONE_ID),
                        config,
                        ts,
                    );
                }
            },
            Err(e) => {
                lemma_recorded(before, step_name, e.0@, e.1@, ts);
            },
        }
    }
}

proof fn lemma_skipped(b: BatchView, names: Seq<Seq<char>>, ts: i64)
    ensures
        goes_on(b, skipped_names(b, names, ts)),
        forall|n: Seq<char>| #[trigger]
            names.contains(n) ==> skipped_names(b, names, ts).failed.contains(n),
    decreases names.len(),
{
    if names.len() > 0 {
        let w = names.drop_last();
        lemma_skipped(b, w, ts);
        assert forall|n: Seq<char>| #[trigger] names.contains(n) implies skipped_names(
            b,
            names,
            ts,
        ).failed.contains(n) by {
            let i = choose|i: int| 0 <= i < names.len() && names[i] == n;
            if i < w.len() {
                assert(w[i] == n);
                assert(w.contains(n));
            }
        }
    }
}

/// Classifying a step keeps what was there. A step that depends on a failed one is not
/// run, and fails under each of its names, so that failure spreads along the plan.
pub proof fn lemma_classified_goes_on(
    b: BatchView,
    completed: Set<Seq<char>>,
    nodes: Map<Seq<char>, NodeInfo>,
    step: ExecutionStep,
    ts: i64,
)
    ensures
        goes_on(b, classified_step(b, completed, nodes, step, ts)),
        !completed.contains(step.name@) && some_in(texts(step.plan_dependencies@), b.failed) ==> {
            &&& step_verdict(b, completed, nodes, step) is Skipped
            &&& forall|n: Seq<char>| #[trigger]
                event_names_of(step).contains(n) ==> classified_step(
                    b,
                    completed,
                    nodes,
                    step,
                    ts,
                ).failed.contains(n)
        },
        completed.contains(step.name@) ==> classified_step(b, completed, nodes, step, ts) == b,
{
    match step_verdict(b, completed, nodes, step) {
        Verdict::Skipped => {
            lemma_skipped(b, event_names_of(step), ts);
        },
        Verdict::GraphDone => {
            lemma_keyed_goes_on(
                b,
                step.name@,
                materialization(
                    b,
                    step.name@,
                    Seq::empty(),
                    None,
                    crate::executor::results::versions_of(
                        b.versions,
                        texts(step.graph_dependencies@),
                    ),
                    ts,
                ),
            );
        },
        _ => {},
    }
}

/// Rolling up mapped steps keeps what was there.
pub proof fn lemma_rolled_up_goes_on(
    b: BatchView,
    steps: Seq<ExecutionStep>,
    records: Seq<MappedStepRecord>,
    ts: i64,
)
    ensures
        goes_on(b, all_rolled_up(b, steps, records, ts)),
    decreases records.len(),
{
    if records.len() > 0 {
        lemma_rolled_up_goes_on(b, steps, records.drop_last(), ts);
    }
}

/// Failing a list of names with one error keeps what was there.
pub proof fn lemma_each_failed_goes_on(
    b: BatchView,
    names: Seq<Seq<char>>,
    e: ErrView,
    class: ClassView,
    ts: i64,
)
    ensures
        goes_on(b, each_failed(b, names, e, class, ts)),
    decreases names.len(),
{
    if names.len() > 0 {
        lemma_each_failed_goes_on(b, names.drop_last(), e, class, ts);
        lemma_recorded(
            each_failed(b, names.drop_last(), e, class, ts),
            names.last(),
            e,
            class,
            ts,
        );
    }
}

/// Failing the instances of a batch keeps what was there and fails each of them.
pub proof fn lemma_instances_failed_goes_on(
    b: BatchView,
    nodes: Map<Seq<char>, NodeInfo>,
    steps: Seq<ExecutionStep>,
    instances: Seq<InstanceView>,
    msg: Seq<char>,
    ts: i64,
)
    ensures
        goes_on(b, all_instances_failed(b, nodes, steps, instances, msg, ts)),
        forall|i: int|
            0 <= i < instances.len() ==> all_instances_failed(
                b,
                nodes,
                steps,
                instances,
                msg,
                ts,
            ).failed.contains((#[trigger] instances[i]).name),
    decreases instances.len(),
{
    if instances.len() > 0 {
        let w = instances.drop_last();
        lemma_instances_failed_goes_on(b, nodes, steps, w, msg, ts);
        assert forall|i: int| 0 <= i < instances.len() implies all_instances_failed(
            b,
            nodes,
            steps,
            instances,
            msg,
            ts,
        ).failed.contains((#[trigger] instances[i]).name) by {
            if i < w.len() {
                assert(w[i] == instances[i]);
            }
        }
    }
}

/// Failing a group for want of an executor keeps what was there.
pub proof fn lemma_group_unrunnable_goes_on(
    b: BatchView,
    steps: Seq<ExecutionStep>,
    group: Seq<usize>,
    msg: Seq<char>,
    ts: i64,
)
    ensures
        goes_on(b, group_unrunnable(b, steps, group, msg, ts)),
    decreases group.len(),
{
    if group.len() > 0 {
        lemma_group_unrunnable_goes_on(b, steps, group.drop_last(), msg, ts);
        lemma_names_unrunnable(
            group_unrunnable(b, steps, group.drop_last(), msg, ts),
            event_names_of(steps[group.last() as int]),
            msg,
            ts,
        );
    }
}

proof fn lemma_names_unrunnable(b: BatchView, names: Seq<Seq<char>>, msg: Seq<char>, ts: i64)
    ensures
        goes_on(b, names_unrunnable(b, names, msg, ts)),
    decreases names.len(),
{
    if names.len() > 0 {
        lemma_names_unrunnable(b, names.drop_last(), msg, ts);
    }
}

/// Taking note of step pods keeps what was there.
pub proof fn lemma_pods_goes_on(b: BatchView, results: Seq<(String, bool)>)
    ensures
        goes_on(b, pods_ended(b, results)),
    decreases results.len(),
{
    if results.len() > 0 {
        lemma_pods_goes_on(b, results.drop_last());
    }
}

} // verus!
