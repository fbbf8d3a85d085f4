//! What a run knows once the result of a step has been recorded: the data versions, the
//! names that have failed, the marks, and what is left to report.
use vstd::prelude::*;
use crate::executor::batch::{
    keyed_event, lemma_keyed_event_frame, logged, mark_for, marks_of, marks_view, recorded_failure,
    BatchView, EffectView, ErrView,
};
use crate::executor::events::{
    opt_logs, pairs_view, plain_event, ClassView, EventView, LogsView, TypeView,
};
use crate::executor::obj::{Obj, NONE_ID};
use crate::executor::plan::{event_names_of, ExecutionStep, NodeInfo};
use crate::executor::record_laws::{
    lemma_event_names, lemma_filter_split, lemma_keyed_records, lemma_last_mark,
    lemma_member_record, marked_record,
};
use crate::executor::results::{
    external_observed, failed_all, final_version, finished_result, fresh_run, handled_failure,
    marks_for_all, materialized, not_yielded, observed, opt_texts, output_recorded, received,
    reported_missing, routed, stashed, versions_of, worker_outputs_recorded, worker_recorded,
    worker_replied, ResultInfo, RunView, WorkOutcome, WorkerItem, WorkerOutput, WorkerReply,
};
use crate::partitions::grid::opt_text;
use crate::partitions::key::KeyView;
use crate::partitions::members::members_of;
use crate::text::texts;

verus! {

/// The effects that a run has and another, from which it went on, has not.
pub open spec fn added(before: BatchView, after: BatchView) -> Seq<EffectView> {
    after.effects.skip(before.effects.len() as int)
}

/// A materialization writes its record, the success of the name and the success hooks of
/// the node, in this order. From then on the data version of the name is the written one;
/// nothing else of the run changes.
pub proof fn lemma_materialized(
    b: BatchView,
    nodes: Map<Seq<char>, NodeInfo>,
    node: Seq<char>,
    name: Seq<char>,
    metadata: Seq<(Seq<char>, Seq<char>)>,
    version: Seq<char>,
    inputs: Seq<(Seq<char>, Seq<char>)>,
    output: Obj,
    config: Option<Obj>,
    ts: i64,
)
    ensures
        ({
            let r = materialized(
                b,
                nodes,
                node,
                name,
                metadata,
                version,
                inputs,
                output,
                config,
                ts,
            );
            let record = EventView {
                origin: b.origin,
                kind: TypeView::Materialization(Some(version)),
                asset: name,
                partition: None,
                ts,
                metadata,
                inputs,
            };
            let hooked = nodes.dom().contains(node) && nodes[node].has_success_hooks;
            &&& r == (BatchView {
                versions: b.versions.insert(name, version),
                effects: r.effects,
                ..b
            })
            &&& r.effects == keyed_event(b, name, record).effects.push(
                EffectView::Event(plain_event(TypeView::StepSuccess, b.origin, name, ts)),
            ) + if hooked {
                seq![EffectView::SuccessHooks(node, name, output, config)]
            } else {
                Seq::empty()
            }
        }),
{
    let record = EventView {
        origin: b.origin,
        kind: TypeView::Materialization(Some(version)),
        asset: name,
        partition: None,
        ts,
        metadata,
        inputs,
    };
    assert(record == crate::executor::results::materialization(
        b,
        name,
        metadata,
        Some(version),
        inputs,
        ts,
    ));
    lemma_keyed_event_frame(b, name, record);
    let r = materialized(b, nodes, node, name, metadata, version, inputs, output, config, ts);
    let base = keyed_event(b, name, record).effects.push(
        EffectView::Event(plain_event(TypeView::StepSuccess, b.origin, name, ts)),
    );
    if nodes.dom().contains(node) && nodes[node].has_success_hooks {
        assert(r.effects =~= base + seq![EffectView::SuccessHooks(node, name, output, config)]);
    } else {
        assert(r.effects =~= base + Seq::<EffectView>::empty());
    }
}

/// An observation writes its record, without inputs, and the success of the name. Its data
/// version is kept where it has one and is asked to be; nothing else of the run changes.
pub proof fn lemma_observed(
    b: BatchView,
    name: Seq<char>,
    metadata: Seq<(Seq<char>, Seq<char>)>,
    version: Option<Seq<char>>,
    keep: bool,
    ts: i64,
)
    ensures
        ({
            let r = observed(b, name, metadata, version, keep, ts);
            let record = EventView {
                origin: b.origin,
                kind: TypeView::Observation(version),
                asset: name,
                partition: None,
                ts,
                metadata,
                inputs: Seq::empty(),
            };
            &&& keep && version is Some ==> r.versions == b.versions.insert(name, version->0)
            &&& !(keep && version is Some) ==> r.versions == b.versions
            &&& r == (BatchView { versions: r.versions, effects: r.effects, ..b })
            &&& r.effects == keyed_event(b, name, record).effects.push(
                EffectView::Event(plain_event(TypeView::StepSuccess, b.origin, name, ts)),
            )
        }),
{
    let record = EventView {
        origin: b.origin,
        kind: TypeView::Observation(version),
        asset: name,
        partition: None,
        ts,
        metadata,
        inputs: Seq::empty(),
    };
    lemma_keyed_event_frame(b, name, record);
}

/// A failure without hooks is recorded under the name, with its reason; a partitioned run
/// records the whole key as failed too, unless it performs an action. The name has failed
/// from then on, and the error is the next to be reported.
pub proof fn lemma_failure_recorded(
    b: BatchView,
    step: Seq<char>,
    e: ErrView,
    class: ClassView,
    ts: i64,
)
    ensures
        ({
            let r = recorded_failure(b, step, e, class, ts);
            let first = EffectView::Event(
                plain_event(TypeView::StepFailure(e.1, Some(class)), b.origin, step, ts),
            );
            &&& r == (BatchView {
                failed: b.failed.insert(step),
                failures: b.failures.push((step, e)),
                effects: r.effects,
                ..b
            })
            &&& b.partition is Some && !b.is_action ==> added(b, r) == seq![
                first,
                marked_record(b.origin, step, b.partition->0, e.1, ts),
            ]
            &&& b.partition is None || b.is_action ==> added(b, r) == seq![first]
            &&& r.effects.take(b.effects.len() as int) == b.effects
        }),
{
    let r = recorded_failure(b, step, e, class, ts);
    let first = EffectView::Event(
        plain_event(TypeView::StepFailure(e.1, Some(class)), b.origin, step, ts),
    );
    if b.partition is Some && !b.is_action {
        assert(added(b, r) =~= seq![
            first,
            marked_record(b.origin, step, b.partition->0, e.1, ts),
        ]);
    } else {
        assert(added(b, r) =~= seq![first]);
    }
    assert(r.effects.take(b.effects.len() as int) =~= b.effects);
}

/// How many records the failure of a name leaves.
pub open spec fn failure_width(b: BatchView) -> int {
    if b.partition is Some && !b.is_action {
        2
    } else {
        1
    }
}

/// The failure of a list of names is recorded for each of them, in order and with the one
/// reason, with the whole key beside it in a partitioned run that performs no action. Each
/// of the names has failed from then on, and no other.
pub proof fn lemma_failed_names(
    b: BatchView,
    names: Seq<Seq<char>>,
    error: Seq<char>,
    class: ClassView,
    ts: i64,
)
    ensures
        ({
            let r = failed_all(b, names, error, class, ts);
            let w = failure_width(b);
            &&& r == (BatchView { failed: r.failed, effects: r.effects, ..b })
            &&& forall|n: Seq<char>| #[trigger]
                r.failed.contains(n) <==> b.failed.contains(n) || names.contains(n)
            &&& r.effects.len() == b.effects.len() + w * names.len()
            &&& r.effects.take(b.effects.len() as int) == b.effects
            &&& forall|i: int|
                0 <= i < names.len() ==> r.effects[b.effects.len() + w * i] == EffectView::Event(
                    plain_event(
                        TypeView::StepFailure(error, Some(class)),
                        b.origin,
                        #[trigger] names[i],
                        ts,
                    ),
                )
            &&& w == 2 ==> forall|i: int|
                0 <= i < names.len() ==> r.effects[b.effects.len() + 2 * i + 1] == marked_record(
                    b.origin,
                    #[trigger] names[i],
                    b.partition->0,
                    error,
                    ts,
                )
        }),
    decreases names.len(),
{
    let r = failed_all(b, names, error, class, ts);
    if names.len() > 0 {
        let v = names.drop_last();
        let q = failed_all(b, v, error, class, ts);
        lemma_failed_names(b, v, error, class, ts);
        let w = failure_width(b);
        assert(w * names.len() == w * v.len() + w) by (nonlinear_arith)
            requires
                names.len() == v.len() + 1,
        ;
        assert forall|n: Seq<char>| #[trigger] r.failed.contains(n) <==> b.failed.contains(n)
            || names.contains(n) by {
            if v.contains(n) {
                let i = choose|i: int| 0 <= i < v.len() && v[i] == n;
                assert(names[i] == n);
            }
            if names.contains(n) {
                let i = choose|i: int| 0 <= i < names.len() && names[i] == n;
                if i < v.len() {
                    assert(v[i] == n);
                }
            }
            assert(names[names.len() - 1] == names.last());
        }
        assert(q.effects.is_prefix_of(r.effects));
        assert(r.effects.take(b.effects.len() as int) =~= q.effects.take(
            b.effects.len() as int,
        ));
        assert forall|i: int| 0 <= i < names.len() implies r.effects[b.effects.len() + w * i]
            == EffectView::Event(
            plain_event(
                TypeView::StepFailure(error, Some(class)),
                b.origin,
                #[trigger] names[i],
                ts,
            ),
        ) by {
            if i < v.len() {
                assert(v[i] == names[i]);
                assert(w * i < w * v.len()) by (nonlinear_arith)
                    requires
                        i < v.len(),
                        w > 0,
                ;
                assert(w * i >= 0) by (nonlinear_arith)
                    requires
                        i >= 0,
                        w > 0,
                ;
            }
        }
        if w == 2 {
            assert forall|i: int| 0 <= i < names.len() implies r.effects[b.effects.len() + 2 * i
                + 1] == marked_record(
                b.origin,
                #[trigger] names[i],
                b.partition->0,
                error,
                ts,
            ) by {
                if i < v.len() {
                    assert(v[i] == names[i]);
                }
            }
        }
    } else {
        assert(r.effects.take(b.effects.len() as int) =~= b.effects);
        assert(failure_width(b) * names.len() == 0) by (nonlinear_arith)
            requires
                names.len() == 0,
        ;
    }
}

/// The failure of a step fails each of its names, runs the failure hooks of its node once,
/// after the records, where it has any, and reports the error once, under one name.
pub proof fn lemma_handled_failure(
    b: BatchView,
    nodes: Map<Seq<char>, NodeInfo>,
    node: Seq<char>,
    hook_name: Seq<char>,
    names: Seq<Seq<char>>,
    e: ErrView,
    class: ClassView,
    config: Option<Obj>,
    ts: i64,
)
    ensures
        ({
            let r = handled_failure(b, nodes, node, hook_name, names, e, class, config, ts);
            let told = failed_all(b, names, e.1, class, ts);
            &&& r.failures == b.failures.push((hook_name, e))
            &&& forall|n: Seq<char>| #[trigger]
                r.failed.contains(n) <==> b.failed.contains(n) || names.contains(n)
            &&& r == (BatchView {
                failed: r.failed,
                failures: r.failures,
                effects: r.effects,
                ..b
            })
            &&& nodes.dom().contains(node) && nodes[node].has_failure_hooks ==> r.effects
                == told.effects.push(EffectView::FailureHooks(node, hook_name, e.1, config))
            &&& !(nodes.dom().contains(node) && nodes[node].has_failure_hooks) ==> r.effects
                == told.effects
        }),
{
    lemma_failed_names(b, names, e.1, class, ts);
}

/// The names that were not recorded are those of the list that were not, in its order.
pub proof fn lemma_left_names(names: Seq<Seq<char>>, yielded: Set<Seq<char>>)
    ensures
        not_yielded(names, yielded) == names.filter(|n: Seq<char>| !yielded.contains(n)),
    decreases names.len(),
{
    reveal(Seq::filter);
    if names.len() > 0 {
        lemma_left_names(names.drop_last(), yielded);
    }
}

/// Each name that a generator left out fails with a message of its own, and is reported;
/// the others are not touched.
pub proof fn lemma_missing_reported(b: BatchView, names: Seq<Seq<char>>, ts: i64)
    ensures
        ({
            let r = reported_missing(b, names, ts);
            &&& r == (BatchView {
                failed: r.failed,
                failures: r.failures,
                effects: r.effects,
                ..b
            })
            &&& forall|n: Seq<char>| #[trigger]
                r.failed.contains(n) <==> b.failed.contains(n) || names.contains(n)
            &&& r.failures.len() == b.failures.len() + names.len()
            &&& forall|i: int|
                0 <= i < names.len() ==> #[trigger] r.failures[b.failures.len() + i] == (
                    names[i],
                    (
                        None::<Obj>,
                        crate::errors::fault_text(
                            (
                                crate::errors::FaultKind::Execution,
                                "Generator multi-asset did not yield output '"@ + names[i] + "'"@,
                            ),
                        ),
                    ),
                )
            &&& r.failures.take(b.failures.len() as int) == b.failures
            &&& r.effects.len() == b.effects.len() + failure_width(b) * names.len()
        }),
    decreases names.len(),
{
    let r = reported_missing(b, names, ts);
    let w = failure_width(b);
    if names.len() > 0 {
        let v = names.drop_last();
        lemma_missing_reported(b, v, ts);
        let q = reported_missing(b, v, ts);
        assert(w * names.len() == w * v.len() + w) by (nonlinear_arith)
            requires
                names.len() == v.len() + 1,
        ;
        assert forall|n: Seq<char>| #[trigger] r.failed.contains(n) <==> b.failed.contains(n)
            || names.contains(n) by {
            if v.contains(n) {
                let i = choose|i: int| 0 <= i < v.len() && v[i] == n;
                assert(names[i] == n);
            }
            if names.contains(n) {
                let i = choose|i: int| 0 <= i < names.len() && names[i] == n;
                if i < v.len() {
                    assert(v[i] == n);
                }
            }
            assert(names[names.len() - 1] == names.last());
        }
        assert(r.failures.take(b.failures.len() as int) =~= q.failures.take(
            b.failures.len() as int,
        ));
        assert forall|i: int| 0 <= i < names.len() implies #[trigger] r.failures[b.failures.len()
            + i] == (
            names[i],
            (
                None::<Obj>,
                crate::errors::fault_text(
                    (
                        crate::errors::FaultKind::Execution,
                        "Generator multi-asset did not yield output '"@ + names[i] + "'"@,
                    ),
                ),
            ),
        ) by {
            if i < v.len() {
                assert(q.failures[b.failures.len() + i] == r.failures[b.failures.len() + i]);
                assert(v[i] == names[i]);
            }
        }
    } else {
        assert(r.failures.take(b.failures.len() as int) =~= b.failures);
        assert(w * names.len() == 0) by (nonlinear_arith)
            requires
                names.len() == 0,
        ;
    }
}

/// The marks of a step are kept under each name under which it reports, in place of
/// earlier ones, and under no other. A step that marks nothing changes no marks.
pub proof fn lemma_stashed(
    b: BatchView,
    step: ExecutionStep,
    marks: Seq<(KeyView, Seq<char>)>,
    name: Seq<char>,
)
    ensures
        stashed(b, step, marks) == (BatchView { marks: stashed(b, step, marks).marks, ..b }),
        marks.len() > 0 && event_names_of(step).contains(name) ==> marks_of(
            stashed(b, step, marks),
            name,
        ) == marks,
        marks.len() == 0 || !event_names_of(step).contains(name) ==> marks_of(
            stashed(b, step, marks),
            name,
        ) == marks_of(b, name),
{
    lemma_marks_for_all(b.marks, event_names_of(step), marks, name);
}

proof fn lemma_marks_for_all(
    m: Map<Seq<char>, Seq<(KeyView, Seq<char>)>>,
    names: Seq<Seq<char>>,
    marks: Seq<(KeyView, Seq<char>)>,
    name: Seq<char>,
)
    ensures
        names.contains(name) ==> marks_for_all(m, names, marks).dom().contains(name)
            && marks_for_all(m, names, marks)[name] == marks,
        !names.contains(name) ==> marks_for_all(m, names, marks).dom().contains(name)
            == m.dom().contains(name) && marks_for_all(m, names, marks)[name] == m[name],
    decreases names.len(),
{
    if names.len() > 0 {
        let w = names.drop_last();
        lemma_marks_for_all(m, w, marks, name);
        if w.contains(name) {
            let i = choose|i: int| 0 <= i < w.len() && w[i] == name;
            assert(names[i] == name);
        }
        if names.contains(name) {
            let i = choose|i: int| 0 <= i < names.len() && names[i] == name;
            if i < w.len() {
                assert(w[i] == name);
            }
        }
        assert(names[names.len() - 1] == names.last());
    }
}

/// The data versions that a step reads are the known ones of its dependencies, in their
/// order.
pub proof fn lemma_input_versions(versions: Map<Seq<char>, Seq<char>>, deps: Seq<Seq<char>>)
    ensures
        versions_of(versions, deps) == deps.filter(
            |d: Seq<char>| versions.dom().contains(d),
        ).map_values(|d: Seq<char>| (d, versions[d])),
    decreases deps.len(),
{
    reveal(Seq::filter);
    let p = |d: Seq<char>| versions.dom().contains(d);
    let f = |d: Seq<char>| (d, versions[d]);
    if deps.len() > 0 {
        lemma_input_versions(versions, deps.drop_last());
        if p(deps.last()) {
            assert(deps.filter(p).map_values(f) =~= deps.drop_last().filter(p).map_values(f).push(
                f(deps.last()),
            ));
        }
    } else {
        assert(deps.filter(p).map_values(f) =~= Seq::empty());
    }
}

/// The version of an output is what writing it gave, else what it declares, else the
/// fresh one.
pub proof fn lemma_final_version(
    io: Option<Seq<char>>,
    declared: Option<Seq<char>>,
    fresh: Seq<char>,
)
    ensures
        io is Some ==> final_version(io, declared, fresh) == io->0,
        io is None && declared is Some ==> final_version(io, declared, fresh) == declared->0,
        io is None && declared is None ==> final_version(io, declared, fresh) == fresh,
{
}

/// The part of captured logs that one stream leaves: its name and its text, unless it is
/// empty.
pub open spec fn stream_said(name: Seq<char>, text: Seq<char>) -> Seq<(Seq<char>, Seq<char>)> {
    if text.len() > 0 {
        seq![(name, text)]
    } else {
        Seq::empty()
    }
}

/// What a step wrote to its streams is one record with each stream that is not empty:
/// output, errors and logs. A step that wrote nothing leaves none.
pub proof fn lemma_logged(b: BatchView, step: Seq<char>, logs: Option<LogsView>, ts: i64)
    ensures
        ({
            let r = logged(b, step, logs, ts);
            &&& logs is None ==> r == b
            &&& logs matches Some(l) ==> {
                let said = stream_said("stdout"@, l.0) + stream_said("stderr"@, l.1) + stream_said(
                    "logs"@,
                    l.2,
                );
                &&& said.len() == 0 ==> r == b
                &&& said.len() > 0 ==> r == (BatchView {
                    effects: b.effects.push(
                        EffectView::Event(
                            EventView {
                                metadata: said,
                                ..plain_event(TypeView::LogOutput, b.origin, step, ts)
                            },
                        ),
                    ),
                    ..b
                })
            }
        }),
{
}

/// When the result of a step is received its marks are kept. A single output that is no
/// map instance has its mapping keys recorded, none where it has none, in place of earlier
/// ones; for other steps no mapping keys change.
pub proof fn lemma_received(
    b: BatchView,
    step: ExecutionStep,
    step_name: Seq<char>,
    marks: Seq<(KeyView, Seq<char>)>,
    keys: Option<Seq<Seq<char>>>,
)
    ensures
        ({
            let r = received(b, step, step_name, marks, keys);
            &&& r == (BatchView { marks: r.marks, dynamic: r.dynamic, ..b })
            &&& r.marks == stashed(b, step, marks).marks
            &&& step.outputs@.len() == 0 && step_name == step.name@ ==> {
                &&& keys matches Some(k) ==> r.dynamic == b.dynamic.insert(step_name, k)
                &&& keys is None ==> r.dynamic == b.dynamic.insert(step_name, Seq::empty())
            }
            &&& step.outputs@.len() > 0 || step_name != step.name@ ==> r.dynamic == b.dynamic
        }),
{
    lemma_stashed(b, step, marks, step_name);
}

/// A step reads the data versions of its dependencies, a map instance none. Only a single
/// output has mapping keys, and nothing has been recorded yet.
pub proof fn lemma_fresh_run(
    b: BatchView,
    step: ExecutionStep,
    step_name: Seq<char>,
    keys: Option<Seq<Seq<char>>>,
)
    ensures
        ({
            let r = fresh_run(b, step, step_name, keys);
            &&& step_name == step.name@ ==> r.inputs == versions_of(
                b.versions,
                texts(step.graph_dependencies@),
            )
            &&& step_name != step.name@ ==> r.inputs.len() == 0
            &&& step.outputs@.len() == 0 ==> r.keys == keys
            &&& step.outputs@.len() > 0 ==> r.keys is None
            &&& forall|n: Seq<char>| !#[trigger] r.yielded.contains(n)
            &&& !r.marks_stashed
        }),
{
}

/// A materialized output of a step has the version that writing it gave, where it was
/// written, else the declared one, else the fresh one. The mapping keys of a single output
/// that was written are kept under that version before its records, where it has any. The
/// rest is the materialization, under the rules of the step's node for a single output and
/// of the output's own node for one of several.
pub proof fn lemma_output_recorded(
    b: BatchView,
    run: RunView,
    nodes: Map<Seq<char>, NodeInfo>,
    step: ExecutionStep,
    name: Seq<char>,
    value: Option<Obj>,
    metadata: Seq<(Seq<char>, Seq<char>)>,
    io: Option<Seq<char>>,
    declared: Option<Seq<char>>,
    fresh: Seq<char>,
    config: Option<Obj>,
    ts: i64,
)
    ensures
        ({
            let r = output_recorded(
                b,
                run,
                nodes,
                step,
                name,
                value,
                metadata,
                io,
                declared,
                fresh,
                config,
                ts,
            );
            let version = if value is Some && io is Some {
                io->0
            } else if declared is Some {
                declared->0
            } else {
                fresh
            };
            let single = step.outputs@.len() == 0;
            let kept = if single && value is Some && run.keys is Some && run.keys->0.len() > 0 {
                BatchView {
                    effects: b.effects.push(EffectView::PersistKeys(name, version, run.keys->0)),
                    ..b
                }
            } else {
                b
            };
            r == materialized(
                kept,
                nodes,
                if single {
                    step.name@
                } else {
                    name
                },
                name,
                metadata,
                version,
                run.inputs,
                if value is Some {
                    value->0
                } else {
                    Obj(NONE_ID)
                },
                config,
                ts,
            )
        }),
{
}

/// When the outputs of a step have been gone through without an error, a step with one
/// output is done; of one with several, exactly the outputs that were not recorded fail.
/// With an error a map instance fails alone, a single output under its own name, and of
/// several outputs those that were not recorded; the error is reported under the name of
/// the instance, with the hooks of the step's node.
pub proof fn lemma_finished(
    b: BatchView,
    run: RunView,
    nodes: Map<Seq<char>, NodeInfo>,
    step: ExecutionStep,
    step_name: Seq<char>,
    error: Option<(ErrView, ClassView)>,
    config: Option<Obj>,
    ts: i64,
)
    ensures
        ({
            let r = finished_result(b, run, nodes, step, step_name, error, config, ts);
            let left = texts(step.outputs@).filter(|n: Seq<char>| !run.yielded.contains(n));
            &&& error is None && step.outputs@.len() == 0 ==> r == b
            &&& error is None && step.outputs@.len() > 0 ==> r == reported_missing(b, left, ts)
            &&& error matches Some(e) ==> r == handled_failure(
                b,
                nodes,
                step.name@,
                step_name,
                if step_name != step.name@ {
                    seq![step_name]
                } else if step.outputs@.len() == 0 {
                    seq![step.name@]
                } else {
                    left
                },
                e.0,
                e.1,
                config,
                ts,
            )
        }),
{
    lemma_left_names(texts(step.outputs@), run.yielded);
}

/// The result of an external asset keeps its marks and is an observation whose version is
/// kept.
pub proof fn lemma_external(
    b: BatchView,
    step: ExecutionStep,
    step_name: Seq<char>,
    info: ResultInfo,
    ts: i64,
)
    ensures
        external_observed(b, step, step_name, info, ts) == observed(
            stashed(b, step, marks_view(info.failed_partitions@)),
            step_name,
            pairs_view(info.metadata@),
            opt_text(info.data_version),
            true,
            ts,
        ),
{
}

/// An output of a worker is an observation whose version is kept, or a materialization
/// with the version that it declares, else the fresh one; the worker keeps its value. The
/// mapping keys of a single output that the worker wrote are kept under its version, where
/// there are any.
pub proof fn lemma_worker_recorded(
    b: BatchView,
    nodes: Map<Seq<char>, NodeInfo>,
    step: ExecutionStep,
    item: WorkerItem,
    keys: Option<Seq<Seq<char>>>,
    inputs: Seq<(Seq<char>, Seq<char>)>,
    config: Option<Obj>,
    fresh: Seq<char>,
    ts: i64,
)
    ensures
        ({
            let r = worker_recorded(b, nodes, step, item, keys, inputs, config, fresh, ts);
            let version = if item.data_version is Some {
                item.data_version->0@
            } else {
                fresh
            };
            let single = step.outputs@.len() == 0;
            let kept = if single && item.kind is Output && keys is Some && keys->0.len() > 0 {
                BatchView {
                    effects: b.effects.push(
                        EffectView::PersistKeys(item.name@, version, keys->0),
                    ),
                    ..b
                }
            } else {
                b
            };
            &&& item.kind is Observation ==> r == observed(
                b,
                item.name@,
                pairs_view(item.metadata@),
                opt_text(item.data_version),
                true,
                ts,
            )
            &&& !(item.kind is Observation) ==> r == materialized(
                kept,
                nodes,
                if single {
                    step.name@
                } else {
                    item.name@
                },
                item.name@,
                pairs_view(item.metadata@),
                version,
                inputs,
                Obj(NONE_ID),
                config,
                ts,
            )
        }),
{
}

/// A run with the marks of a step kept, and the logs of its worker recorded.
spec fn prepared(
    b: BatchView,
    step: ExecutionStep,
    step_name: Seq<char>,
    reply: WorkerReply,
    ts: i64,
) -> BatchView {
    stashed(
        logged(b, step_name, opt_logs(reply.captured_logs), ts),
        step,
        marks_view(reply.failed_partitions@),
    )
}

/// What is the same of a run whatever outputs are recorded.
spec fn same_ground(a: BatchView, b: BatchView) -> bool {
    &&& a.origin == b.origin
    &&& a.partition == b.partition
    &&& a.is_action == b.is_action
    &&& a.marks == b.marks
    &&& a.effects.is_prefix_of(b.effects)
}

/// Whether an effect is a materialization or an observation of a name for a partition.
pub open spec fn says_good(e: EffectView, name: Seq<char>, k: KeyView) -> bool {
    e matches EffectView::Event(v) && v.asset == name && v.partition == Some(k) && (
    v.kind is Materialization || v.kind is Observation)
}

/// The record that an output of a worker leaves for a partition that is not marked.
pub open spec fn worker_record(
    b: BatchView,
    item: WorkerItem,
    fresh: Seq<char>,
    inputs: Seq<(Seq<char>, Seq<char>)>,
    partition: Option<KeyView>,
    ts: i64,
) -> EffectView {
    let version = match item.data_version {
        Some(v) => v@,
        None => fresh,
    };
    EffectView::Event(
        EventView {
            origin: b.origin,
            kind: if item.kind is Observation {
                TypeView::Observation(opt_text(item.data_version))
            } else {
                TypeView::Materialization(Some(version))
            },
            asset: item.name@,
            partition,
            ts,
            metadata: pairs_view(item.metadata@),
            inputs: if item.kind is Observation {
                Seq::empty()
            } else {
                inputs
            },
        },
    )
}

spec fn unkeyed(e: EffectView) -> EventView {
    e->Event_0
}

proof fn lemma_item(
    b: BatchView,
    nodes: Map<Seq<char>, NodeInfo>,
    step: ExecutionStep,
    item: WorkerItem,
    keys: Option<Seq<Seq<char>>>,
    inputs: Seq<(Seq<char>, Seq<char>)>,
    config: Option<Obj>,
    fresh: Seq<char>,
    ts: i64,
    k: KeyView,
)
    ensures
        ({
            let r = worker_recorded(b, nodes, step, item, keys, inputs, config, fresh, ts);
            let marks = marks_of(b, item.name@);
            let new = added(b, r);
            &&& same_ground(b, r)
            &&& r.failed == b.failed && r.failures == b.failures
            &&& b.partition is None ==> new.contains(
                worker_record(b, item, fresh, inputs, None, ts),
            )
            &&& b.partition is Some && members_of(b.partition->0).contains(k) ==> {
                &&& mark_for(marks, k) matches Some(error) ==> new.contains(
                    marked_record(b.origin, item.name@, k, error, ts),
                )
                &&& mark_for(marks, k) is None ==> new.contains(
                    worker_record(b, item, fresh, inputs, Some(k), ts),
                )
            }
            &&& forall|name: Seq<char>, x: int|
                0 <= x < new.len() && #[trigger] says_good(new[x], name, k) ==> name == item.name@
                    && mark_for(marks, k) is None
        }),
{
    let r = worker_recorded(b, nodes, step, item, keys, inputs, config, fresh, ts);
    lemma_worker_recorded(b, nodes, step, item, keys, inputs, config, fresh, ts);
    let marks = marks_of(b, item.name@);
    let rec = unkeyed(worker_record(b, item, fresh, inputs, None, ts));
    let version = match item.data_version {
        Some(v) => v@,
        None => fresh,
    };
    let single = step.outputs@.len() == 0;
    let kept = if !(item.kind is Observation) && single && item.kind is Output && keys is Some
        && keys->0.len() > 0 {
        BatchView {
            effects: b.effects.push(EffectView::PersistKeys(item.name@, version, keys->0)),
            ..b
        }
    } else {
        b
    };
    let keyed = keyed_event(kept, item.name@, rec);
    if item.kind is Observation {
        lemma_observed(
            b,
            item.name@,
            pairs_view(item.metadata@),
            opt_text(item.data_version),
            true,
            ts,
        );
    } else {
        lemma_materialized(
            kept,
            nodes,
            if single {
                step.name@
            } else {
                item.name@
            },
            item.name@,
            pairs_view(item.metadata@),
            version,
            inputs,
            Obj(NONE_ID),
            config,
            ts,
        );
    }
    lemma_keyed_records(kept, item.name@, rec);
    let p = added(kept, keyed);
    let new = added(b, r);
    let off = kept.effects.len() - b.effects.len();
    assert(kept.effects.is_prefix_of(keyed.effects));
    assert(keyed.effects.is_prefix_of(r.effects));
    assert(marks_of(kept, item.name@) == marks);
    assert forall|x: int| 0 <= x < p.len() implies #[trigger] p[x] == new[off + x] by {
        assert(keyed.effects[kept.effects.len() + x] == r.effects[kept.effects.len() + x]);
    }
    if b.partition is None {
        assert(p =~= seq![EffectView::Event(rec)]);
        assert(p[0] == new[off]);
        assert(new.contains(new[off]));
    } else {
        if members_of(b.partition->0).contains(k) {
            lemma_member_record(kept, item.name@, rec, k);
            lemma_last_mark(marks, k);
            let want = match mark_for(marks, k) {
                Some(error) => marked_record(b.origin, item.name@, k, error, ts),
                None => worker_record(b, item, fresh, inputs, Some(k), ts),
            };
            if let Some(error) = mark_for(marks, k) {
                let i = choose|i: int|
                    0 <= i < marks.len() && #[trigger] marks[i] == (k, error) && forall|j: int|
                        i < j < marks.len() ==> (#[trigger] marks[j]).0 != k;
                assert(marks[i].0 == k);
                assert(p.contains(marked_record(b.origin, item.name@, k, marks[i].1, ts)));
            }
            assert(p.contains(want));
            let x = choose|x: int| 0 <= x < p.len() && p[x] == want;
            assert(new[off + x] == want);
            assert(new.contains(want));
        }
    }
    assert forall|name: Seq<char>, x: int|
        0 <= x < new.len() && #[trigger] says_good(new[x], name, k) implies name == item.name@
        && mark_for(marks, k) is None by {
        if x >= off && x < off + p.len() {
            assert(p[x - off] == new[x]);
            lemma_good_unmarked(kept, item.name@, rec, k, x - off);
        } else if x < off {
            assert(new[x] == kept.effects[b.effects.len() + x]);
        } else {
            assert(new[x] == r.effects[b.effects.len() + x]);
            assert(b.effects.len() + x >= keyed.effects.len());
        }
    }
}

/// What a record of a step leaves for a partition is the step's own only where the
/// partition is not marked.
proof fn lemma_good_unmarked(b: BatchView, step: Seq<char>, e: EventView, k: KeyView, x: int)
    requires
        b.partition is Some,
        0 <= x < added(b, keyed_event(b, step, e)).len(),
    ensures
        ({
            let v = added(b, keyed_event(b, step, e))[x];
            &&& v is Event
            &&& v->Event_0.partition == Some(k) && !(v->Event_0.kind is StepFailure) ==> mark_for(
                marks_of(b, step),
                k,
            ) is None
            &&& v->Event_0.asset == step || v->Event_0.asset == e.asset
        }),
{
    let marks = marks_of(b, step);
    let ms = members_of(b.partition->0);
    let p = |y: KeyView| mark_for(marks, y) is Some;
    let q = |y: KeyView| mark_for(marks, y) is None;
    let f = |y: KeyView| marked_record(b.origin, step, y, mark_for(marks, y)->0, e.ts);
    let g = |y: KeyView| EffectView::Event(EventView { partition: Some(y), ..e });
    lemma_keyed_records(b, step, e);
    let fails = ms.filter(p).map_values(f);
    let goods = ms.filter(q).map_values(g);
    let new = added(b, keyed_event(b, step, e));
    assert(new =~= fails + goods);
    if x < fails.len() {
        assert(new[x] == f(ms.filter(p)[x]));
    } else {
        let y = ms.filter(q)[x - fails.len()];
        assert(new[x] == g(y));
        assert(ms.filter(q).contains(y));
        lemma_filter_split(ms, q, y);
    }
}

proof fn lemma_items(
    b: BatchView,
    nodes: Map<Seq<char>, NodeInfo>,
    step: ExecutionStep,
    step_name: Seq<char>,
    items: Seq<(WorkerOutput, String)>,
    keys: Option<Seq<Seq<char>>>,
    inputs: Seq<(Seq<char>, Seq<char>)>,
    config: Option<Obj>,
    ts: i64,
    k: KeyView,
)
    ensures
        ({
            let r = worker_outputs_recorded(
                b,
                nodes,
                step,
                step_name,
                items,
                keys,
                inputs,
                config,
                ts,
            );
            let new = added(b, r);
            &&& same_ground(b, r)
            &&& forall|i: int|
                0 <= i < items.len() && (#[trigger] items[i]).0 is Ok ==> item_told(
                    b,
                    new,
                    items[i].0->Ok_0,
                    items[i].1@,
                    inputs,
                    k,
                    ts,
                )
            &&& forall|name: Seq<char>, x: int|
                0 <= x < new.len() && #[trigger] says_good(new[x], name, k) ==> mark_for(
                    marks_of(b, name),
                    k,
                ) is None && exists|i: int|
                    0 <= i < items.len() && (#[trigger] items[i]).0 is Ok
                        && items[i].0->Ok_0.name@ == name
            &&& forall|n: Seq<char>| #[trigger]
                r.failed.contains(n) <==> b.failed.contains(n) || (n == step_name && exists|i: int|
                    0 <= i < items.len() && (#[trigger] items[i]).0 is Err)
        }),
    decreases items.len(),
{
    let r = worker_outputs_recorded(b, nodes, step, step_name, items, keys, inputs, config, ts);
    let new = added(b, r);
    if items.len() > 0 {
        let w = items.drop_last();
        let q = worker_outputs_recorded(b, nodes, step, step_name, w, keys, inputs, config, ts);
        lemma_items(b, nodes, step, step_name, w, keys, inputs, config, ts, k);
        let old = added(b, q);
        let last = items[items.len() - 1];
        match last.0 {
            Ok(item) => {
                lemma_item(q, nodes, step, item, keys, inputs, config, last.1@, ts, k);
            },
            Err(e) => {
                lemma_failure_recorded(q, step_name, e.0@, e.1@, ts);
                assert(q.effects.is_prefix_of(r.effects)) by {
                    assert(r.effects.take(q.effects.len() as int) == q.effects);
                }
            },
        }
        let more = added(q, r);
        assert(old.len() <= new.len());
        assert forall|x: int| 0 <= x < old.len() implies #[trigger] old[x] == new[x] by {
            assert(q.effects[b.effects.len() + x] == r.effects[b.effects.len() + x]);
        }
        assert forall|x: int| 0 <= x < more.len() implies #[trigger] more[x] == new[old.len()
            + x] by {}
        assert forall|i: int| 0 <= i < items.len() && (#[trigger] items[i]).0 is Ok implies item_told(
            b,
            new,
            items[i].0->Ok_0,
            items[i].1@,
            inputs,
            k,
            ts,
        ) by {
            let item = items[i].0->Ok_0;
            let fresh = items[i].1@;
            let part = if i < w.len() {
                old
            } else {
                more
            };
            let off = if i < w.len() {
                0int
            } else {
                old.len() as int
            };
            if i < w.len() {
                assert(w[i] == items[i]);
                assert(item_told(b, old, item, fresh, inputs, k, ts));
            } else {
                assert(marks_of(q, item.name@) == marks_of(b, item.name@));
                assert(item_told(b, more, item, fresh, inputs, k, ts));
            }
            let want = item_wanted(b, item, fresh, inputs, k, ts);
            if b.partition is None || members_of(b.partition->0).contains(k) {
                assert(part.contains(want));
                let x = choose|x: int| 0 <= x < part.len() && part[x] == want;
                assert(new[off + x] == want);
                assert(new.contains(want));
            }
        }
        assert forall|name: Seq<char>, x: int|
            0 <= x < new.len() && #[trigger] says_good(new[x], name, k) implies mark_for(
            marks_of(b, name),
            k,
        ) is None && exists|i: int|
            0 <= i < items.len() && (#[trigger] items[i]).0 is Ok && items[i].0->Ok_0.name@
                == name by {
            if x < old.len() {
                assert(says_good(old[x], name, k));
                let i = choose|i: int|
                    0 <= i < w.len() && (#[trigger] w[i]).0 is Ok && w[i].0->Ok_0.name@ == name;
                assert(items[i] == w[i]);
            } else {
                let y = x - old.len();
                assert(more[y] == new[x]);
                assert(says_good(more[y], name, k));
                match last.0 {
                    Ok(item) => {
                        assert(name == item.name@);
                        assert(marks_of(q, name) == marks_of(b, name));
                        assert(items[items.len() - 1].0 is Ok);
                    },
                    Err(e) => {
                        assert(more[0] is Event && more[0]->Event_0.kind is StepFailure);
                        if more.len() > 1 {
                            assert(more[1] is Event && more[1]->Event_0.kind is StepFailure);
                        }
                    },
                }
            }
        }
        assert forall|n: Seq<char>| #[trigger] r.failed.contains(n) <==> b.failed.contains(n) || (n
            == step_name && exists|i: int| 0 <= i < items.len() && (#[trigger] items[i]).0 is Err) by {
            assert(q.failed.contains(n) <==> b.failed.contains(n) || (n == step_name && exists|
                i: int,
            |
                0 <= i < w.len() && (#[trigger] w[i]).0 is Err));
            if exists|i: int| 0 <= i < w.len() && (#[trigger] w[i]).0 is Err {
                let i = choose|i: int| 0 <= i < w.len() && (#[trigger] w[i]).0 is Err;
                assert(items[i].0 is Err);
            }
            if exists|i: int| 0 <= i < items.len() && (#[trigger] items[i]).0 is Err {
                let i = choose|i: int| 0 <= i < items.len() && (#[trigger] items[i]).0 is Err;
                if i < w.len() {
                    assert(w[i].0 is Err);
                }
            }
        }
    } else {
        assert(new =~= Seq::empty());
    }
}

/// The record that an output of a worker leaves: its own in an unpartitioned run and for a
/// partition that is not marked, else the failure that the last mark of the partition
/// gives.
pub open spec fn item_wanted(
    b: BatchView,
    item: WorkerItem,
    fresh: Seq<char>,
    inputs: Seq<(Seq<char>, Seq<char>)>,
    k: KeyView,
    ts: i64,
) -> EffectView {
    if b.partition is None {
        worker_record(b, item, fresh, inputs, None, ts)
    } else {
        match mark_for(marks_of(b, item.name@), k) {
            Some(error) => marked_record(b.origin, item.name@, k, error, ts),
            None => worker_record(b, item, fresh, inputs, Some(k), ts),
        }
    }
}

/// Whether the record that an output of a worker leaves is among a list of effects.
pub open spec fn item_told(
    b: BatchView,
    new: Seq<EffectView>,
    item: WorkerItem,
    fresh: Seq<char>,
    inputs: Seq<(Seq<char>, Seq<char>)>,
    k: KeyView,
    ts: i64,
) -> bool {
    b.partition is None || members_of(b.partition->0).contains(k) ==> new.contains(
        item_wanted(b, item, fresh, inputs, k, ts),
    )
}

/// The marks that count for a name once a step has marked partitions: those of the step
/// where it reports under the name and has marked any, else those that were kept before.
pub open spec fn counting_marks(
    b: BatchView,
    step: ExecutionStep,
    name: Seq<char>,
    marks: Seq<(KeyView, Seq<char>)>,
) -> Seq<(KeyView, Seq<char>)> {
    if marks.len() > 0 && (if step.outputs@.len() == 0 {
        name == step.name@
    } else {
        texts(step.outputs@).contains(name)
    }) {
        marks
    } else if b.marks.dom().contains(name) {
        b.marks[name]
    } else {
        Seq::empty()
    }
}

/// When the reply of a worker has been recorded, each member of the key of the run that the
/// worker marked as failed has, for each output of the step that the worker sent back, a
/// failure with the reason of its last mark, and no materialization or observation of that
/// output; each member that is not marked has the record of the output. What cannot be read
/// fails the step; nothing else fails.
pub proof fn lemma_worker_reply(
    b: BatchView,
    nodes: Map<Seq<char>, NodeInfo>,
    step: ExecutionStep,
    step_name: Seq<char>,
    reply: WorkerReply,
    inputs: Seq<(Seq<char>, Seq<char>)>,
    config: Option<Obj>,
    ts: i64,
    i: int,
    k: KeyView,
)
    requires
        reply.outputs matches Ok(items) && 0 <= i < items@.len() && items@[i].0 is Ok,
        b.partition matches Some(pk) && members_of(pk).contains(k),
    ensures
        ({
            let r = worker_replied(b, nodes, step, step_name, reply, inputs, config, ts);
            let new = added(b, r);
            let item = reply.outputs->Ok_0@[i].0->Ok_0;
            let fresh = reply.outputs->Ok_0@[i].1@;
            let name = item.name@;
            let counts = counting_marks(b, step, name, marks_view(reply.failed_partitions@));
            &&& forall|m: int|
                0 <= m < counts.len() && (#[trigger] counts[m]).0 == k && (forall|n: int|
                    m < n < counts.len() ==> (#[trigger] counts[n]).0 != k) ==> new.contains(
                    marked_record(b.origin, name, k, counts[m].1, ts),
                )
            &&& (exists|m: int| 0 <= m < counts.len() && (#[trigger] counts[m]).0 == k) ==> forall|
                x: int,
            |
                0 <= x < new.len() ==> !says_good(#[trigger] new[x], name, k)
            &&& (forall|m: int| 0 <= m < counts.len() ==> (#[trigger] counts[m]).0 != k)
                ==> new.contains(worker_record(b, item, fresh, inputs, Some(k), ts))
            &&& forall|n: Seq<char>| #[trigger]
                r.failed.contains(n) <==> b.failed.contains(n) || (n == step_name && exists|j: int|
                    0 <= j < reply.outputs->Ok_0@.len() && (
                    #[trigger] reply.outputs->Ok_0@[j]).0 is Err)
        }),
{
    let items = reply.outputs->Ok_0@;
    let item = items[i].0->Ok_0;
    let fresh = items[i].1@;
    let name = item.name@;
    let marks = marks_view(reply.failed_partitions@);
    let kept = prepared(b, step, step_name, reply, ts);
    let spoken = logged(b, step_name, opt_logs(reply.captured_logs), ts);
    let keys = if step.outputs@.len() == 0 {
        opt_texts(reply.dynamic_keys)
    } else {
        None
    };
    let r = worker_replied(b, nodes, step, step_name, reply, inputs, config, ts);
    lemma_stashed(spoken, step, marks, name);
    lemma_items(kept, nodes, step, step_name, items, keys, inputs, config, ts, k);
    lemma_reports(step, name);
    let counts = counting_marks(b, step, name, marks);
    assert(counts == marks_of(kept, name));
    lemma_last_mark(counts, k);
    let later = added(kept, r);
    let new = added(b, r);
    let off = kept.effects.len() - b.effects.len();
    assert forall|x: int| 0 <= x < later.len() implies #[trigger] later[x] == new[off + x] by {}
    assert(item_told(kept, later, item, fresh, inputs, k, ts));
    let want = item_wanted(kept, item, fresh, inputs, k, ts);
    assert(later.contains(want));
    let at = choose|x: int| 0 <= x < later.len() && later[x] == want;
    assert(new[off + at] == want);
    assert(new.contains(want));
    assert forall|m: int|
        0 <= m < counts.len() && (#[trigger] counts[m]).0 == k && (forall|n: int|
            m < n < counts.len() ==> (#[trigger] counts[n]).0 != k) implies new.contains(
        marked_record(b.origin, name, k, counts[m].1, ts),
    ) by {
        let error = mark_for(counts, k)->0;
        let z = choose|z: int|
            0 <= z < counts.len() && #[trigger] counts[z] == (k, error) && forall|n: int|
                z < n < counts.len() ==> (#[trigger] counts[n]).0 != k;
        if m < z {
            assert(counts[z].0 == k);
        }
        assert(m == z);
    }
    if exists|m: int| 0 <= m < counts.len() && (#[trigger] counts[m]).0 == k {
        assert forall|x: int| 0 <= x < new.len() implies !says_good(
            #[trigger] new[x],
            name,
            k,
        ) by {
            if x >= off {
                assert(later[x - off] == new[x]);
                if says_good(later[x - off], name, k) {
                    assert(mark_for(marks_of(kept, name), k) is None);
                }
            } else {
                assert(new[x] == kept.effects[b.effects.len() + x]);
                assert(new[x]->Event_0.kind is LogOutput);
            }
        }
    }
}

proof fn lemma_reports(step: ExecutionStep, name: Seq<char>)
    ensures
        event_names_of(step).contains(name) <==> if step.outputs@.len() == 0 {
            name == step.name@
        } else {
            texts(step.outputs@).contains(name)
        },
{
    lemma_event_names(step);
    if step.outputs@.len() == 0 {
        if name == step.name@ {
            assert(event_names_of(step)[0] == name);
        }
    }
}

/// Whether what a record leaves is the same in two runs: they are of one origin, key and
/// kind, and have the same marks.
pub open spec fn alike(a: BatchView, b: BatchView) -> bool {
    &&& a.origin == b.origin
    &&& a.partition == b.partition
    &&& a.is_action == b.is_action
    &&& a.marks == b.marks
}

/// A run after one output of a worker, or why it cannot be read.
spec fn one_output(
    b: BatchView,
    nodes: Map<Seq<char>, NodeInfo>,
    step: ExecutionStep,
    step_name: Seq<char>,
    item: (WorkerOutput, String),
    keys: Option<Seq<Seq<char>>>,
    inputs: Seq<(Seq<char>, Seq<char>)>,
    config: Option<Obj>,
    ts: i64,
) -> BatchView {
    match item.0 {
        Ok(x) => worker_recorded(b, nodes, step, x, keys, inputs, config, item.1@, ts),
        Err(e) => recorded_failure(b, step_name, e.0@, e.1@, ts),
    }
}

proof fn lemma_keyed_alike(a: BatchView, b: BatchView, step: Seq<char>, e: EventView)
    requires
        alike(a, b),
    ensures
        added(a, keyed_event(a, step, e)) == added(b, keyed_event(b, step, e)),
        keyed_event(a, step, e).effects == a.effects + added(a, keyed_event(a, step, e)),
        keyed_event(b, step, e).effects == b.effects + added(b, keyed_event(b, step, e)),
{
    lemma_keyed_records(a, step, e);
    lemma_keyed_records(b, step, e);
    assert(marks_of(a, step) == marks_of(b, step));
    assert(added(a, keyed_event(a, step, e)) =~= added(b, keyed_event(b, step, e)));
    assert(keyed_event(a, step, e).effects =~= a.effects + added(a, keyed_event(a, step, e)));
    assert(keyed_event(b, step, e).effects =~= b.effects + added(b, keyed_event(b, step, e)));
}

proof fn lemma_output_alike(
    a: BatchView,
    b: BatchView,
    nodes: Map<Seq<char>, NodeInfo>,
    step: ExecutionStep,
    step_name: Seq<char>,
    item: (WorkerOutput, String),
    keys: Option<Seq<Seq<char>>>,
    inputs: Seq<(Seq<char>, Seq<char>)>,
    config: Option<Obj>,
    ts: i64,
)
    requires
        alike(a, b),
    ensures
        ({
            let x = one_output(a, nodes, step, step_name, item, keys, inputs, config, ts);
            let y = one_output(b, nodes, step, step_name, item, keys, inputs, config, ts);
            &&& added(a, x) == added(b, y)
            &&& x.effects == a.effects + added(a, x)
            &&& alike(x, a)
        }),
{
    let x = one_output(a, nodes, step, step_name, item, keys, inputs, config, ts);
    let y = one_output(b, nodes, step, step_name, item, keys, inputs, config, ts);
    match item.0 {
        Err(e) => {
            lemma_failure_recorded(a, step_name, e.0@, e.1@, ts);
            lemma_failure_recorded(b, step_name, e.0@, e.1@, ts);
        },
        Ok(w) => {
            let fresh = item.1@;
            lemma_worker_recorded(a, nodes, step, w, keys, inputs, config, fresh, ts);
            lemma_worker_recorded(b, nodes, step, w, keys, inputs, config, fresh, ts);
            let version = if w.data_version is Some {
                w.data_version->0@
            } else {
                fresh
            };
            let rec = unkeyed(worker_record(a, w, fresh, inputs, None, ts));
            if w.kind is Observation {
                let m = pairs_view(w.metadata@);
                lemma_observed(a, w.name@, m, opt_text(w.data_version), true, ts);
                lemma_observed(b, w.name@, m, opt_text(w.data_version), true, ts);
                lemma_keyed_alike(a, b, w.name@, rec);
                assert(added(a, x) =~= added(b, y));
                assert(x.effects =~= a.effects + added(a, x));
            } else {
                let single = step.outputs@.len() == 0;
                let persist = single && w.kind is Output && keys is Some && keys->0.len() > 0;
                let pa = if persist {
                    BatchView {
                        effects: a.effects.push(
                            EffectView::PersistKeys(w.name@, version, keys->0),
                        ),
                        ..a
                    }
                } else {
                    a
                };
                let pb = if persist {
                    BatchView {
                        effects: b.effects.push(
                            EffectView::PersistKeys(w.name@, version, keys->0),
                        ),
                        ..b
                    }
                } else {
                    b
                };
                let node = if single {
                    step.name@
                } else {
                    w.name@
                };
                let m = pairs_view(w.metadata@);
                let none = Obj(NONE_ID);
                lemma_materialized(pa, nodes, node, w.name@, m, version, inputs, none, config, ts);
                lemma_materialized(pb, nodes, node, w.name@, m, version, inputs, none, config, ts);
                lemma_keyed_alike(pa, pb, w.name@, rec);
                assert(added(a, x) =~= added(b, y));
                assert(x.effects =~= a.effects + added(a, x));
            }
        },
    }
}

/// The outputs of a worker are recorded one after the other: each adds to the run exactly
/// what it would add if it were the only one, in their order, and nothing else is added.
pub proof fn lemma_outputs_one_by_one(
    b: BatchView,
    nodes: Map<Seq<char>, NodeInfo>,
    step: ExecutionStep,
    step_name: Seq<char>,
    items: Seq<(WorkerOutput, String)>,
    keys: Option<Seq<Seq<char>>>,
    inputs: Seq<(Seq<char>, Seq<char>)>,
    config: Option<Obj>,
    ts: i64,
)
    ensures
        ({
            let r = worker_outputs_recorded(
                b,
                nodes,
                step,
                step_name,
                items,
                keys,
                inputs,
                config,
                ts,
            );
            &&& alike(r, b)
            &&& r.effects == b.effects + items.map_values(
                |item: (WorkerOutput, String)|
                    added(
                        b,
                        worker_outputs_recorded(
                            b,
                            nodes,
                            step,
                            step_name,
                            seq![item],
                            keys,
                            inputs,
                            config,
                            ts,
                        ),
                    ),
            ).flatten_alt()
        }),
    decreases items.len(),
{
    let f = |item: (WorkerOutput, String)|
        added(
            b,
            worker_outputs_recorded(
                b,
                nodes,
                step,
                step_name,
                seq![item],
                keys,
                inputs,
                config,
                ts,
            ),
        );
    let r = worker_outputs_recorded(b, nodes, step, step_name, items, keys, inputs, config, ts);
    let all = items.map_values(f);
    if items.len() > 0 {
        let w = items.drop_last();
        let last = items.last();
        lemma_outputs_one_by_one(b, nodes, step, step_name, w, keys, inputs, config, ts);
        let q = worker_outputs_recorded(b, nodes, step, step_name, w, keys, inputs, config, ts);
        lemma_output_alike(q, b, nodes, step, step_name, last, keys, inputs, config, ts);
        let one = seq![last];
        assert(one.drop_last() =~= Seq::empty());
        assert(one.last() == last);
        assert(worker_outputs_recorded(
            b,
            nodes,
            step,
            step_name,
            one.drop_last(),
            keys,
            inputs,
            config,
            ts,
        ) == b);
        assert(all.drop_last() =~= w.map_values(f));
        assert(all.last() == f(last));
        assert(r.effects =~= b.effects + all.flatten_alt());
    } else {
        assert(r.effects =~= b.effects + all.flatten_alt());
    }
}

/// The data version of a name, once the outputs of a worker have been recorded, is that of
/// the last output under the name that gives one; a name without any keeps its own.
pub proof fn lemma_worker_versions(
    b: BatchView,
    nodes: Map<Seq<char>, NodeInfo>,
    step: ExecutionStep,
    step_name: Seq<char>,
    items: Seq<(WorkerOutput, String)>,
    keys: Option<Seq<Seq<char>>>,
    inputs: Seq<(Seq<char>, Seq<char>)>,
    config: Option<Obj>,
    ts: i64,
    name: Seq<char>,
)
    ensures
        ({
            let r = worker_outputs_recorded(
                b,
                nodes,
                step,
                step_name,
                items,
                keys,
                inputs,
                config,
                ts,
            );
            &&& forall|i: int|
                #![trigger items[i]]
                0 <= i < items.len() && gives_version(items[i], name) && (forall|j: int|
                    i < j < items.len() ==> !gives_version(#[trigger] items[j], name))
                    ==> r.versions.dom().contains(name) && r.versions[name] == if (
                items[i].0->Ok_0.data_version) is Some {
                    items[i].0->Ok_0.data_version->0@
                } else {
                    items[i].1@
                }
            &&& (forall|j: int|
                0 <= j < items.len() ==> !gives_version(#[trigger] items[j], name)) ==> (
            r.versions.dom().contains(name) <==> b.versions.dom().contains(name))
                && r.versions[name] == b.versions[name]
        }),
    decreases items.len(),
{
    let r = worker_outputs_recorded(b, nodes, step, step_name, items, keys, inputs, config, ts);
    if items.len() > 0 {
        let w = items.drop_last();
        let last = items[items.len() - 1];
        lemma_worker_versions(b, nodes, step, step_name, w, keys, inputs, config, ts, name);
        let q = worker_outputs_recorded(b, nodes, step, step_name, w, keys, inputs, config, ts);
        if let Ok(x) = last.0 {
            let fresh = last.1@;
            lemma_worker_recorded(q, nodes, step, x, keys, inputs, config, fresh, ts);
            let version = if x.data_version is Some {
                x.data_version->0@
            } else {
                fresh
            };
            if x.kind is Observation {
                lemma_observed(
                    q,
                    x.name@,
                    pairs_view(x.metadata@),
                    opt_text(x.data_version),
                    true,
                    ts,
                );
            } else {
                let single = step.outputs@.len() == 0;
                let kept = if single && x.kind is Output && keys is Some && keys->0.len() > 0 {
                    BatchView {
                        effects: q.effects.push(
                            EffectView::PersistKeys(x.name@, version, keys->0),
                        ),
                        ..q
                    }
                } else {
                    q
                };
                lemma_materialized(
                    kept,
                    nodes,
                    if single {
                        step.name@
                    } else {
                        x.name@
                    },
                    x.name@,
                    pairs_view(x.metadata@),
                    version,
                    inputs,
                    Obj(NONE_ID),
                    config,
                    ts,
                );
            }
        }
        assert forall|i: int|
            #![trigger items[i]]
            0 <= i < items.len() && gives_version(items[i], name) && (forall|j: int|
                i < j < items.len() ==> !gives_version(#[trigger] items[j], name)) implies
        r.versions.dom().contains(name) && r.versions[name] == if (
        items[i].0->Ok_0.data_version) is Some {
            items[i].0->Ok_0.data_version->0@
        } else {
            items[i].1@
        } by {
            if i < w.len() {
                assert(!gives_version(items[items.len() - 1], name));
                assert(w[i] == items[i]);
                assert forall|j: int| i < j < w.len() implies !gives_version(
                    #[trigger] w[j],
                    name,
                ) by {
                    assert(!gives_version(items[j], name));
                }
            }
        }
        if forall|j: int| 0 <= j < items.len() ==> !gives_version(#[trigger] items[j], name) {
            assert(!gives_version(items[items.len() - 1], name));
            assert forall|j: int| 0 <= j < w.len() implies !gives_version(
                #[trigger] w[j],
                name,
            ) by {
                assert(!gives_version(items[j], name));
            }
        }
    }
}

/// Whether an output of a worker gives a name a data version: a materialization always
/// does, an observation where it declares one.
pub open spec fn gives_version(item: (WorkerOutput, String), name: Seq<char>) -> bool {
    item.0 matches Ok(x) && x.name@ == name && (!(x.kind is Observation) || x.data_version is Some)
}

/// A worker whose outputs cannot be read fails the step after its logs, without hooks. Else
/// the marks of the step are kept before its outputs are recorded; mapping keys count for a
/// single output alone.
pub proof fn lemma_reply_routed(
    b: BatchView,
    nodes: Map<Seq<char>, NodeInfo>,
    step: ExecutionStep,
    step_name: Seq<char>,
    reply: WorkerReply,
    inputs: Seq<(Seq<char>, Seq<char>)>,
    config: Option<Obj>,
    ts: i64,
)
    ensures
        ({
            let r = worker_replied(b, nodes, step, step_name, reply, inputs, config, ts);
            let spoken = logged(b, step_name, opt_logs(reply.captured_logs), ts);
            &&& reply.outputs matches Err(e) ==> r == recorded_failure(
                spoken,
                step_name,
                e.0@,
                e.1@,
                ts,
            )
            &&& reply.outputs matches Ok(items) ==> r == worker_outputs_recorded(
                stashed(spoken, step, marks_view(reply.failed_partitions@)),
                nodes,
                step,
                step_name,
                items@,
                if step.outputs@.len() == 0 {
                    opt_texts(reply.dynamic_keys)
                } else {
                    None
                },
                inputs,
                config,
                ts,
            )
        }),
{
}

/// Whatever way a step ended its logs are recorded first. An error then fails every name
/// of the step, under the hooks of its node; what a worker sent back is recorded; a result
/// is left for its outputs to be gone through.
pub proof fn lemma_outcome_routed(
    b: BatchView,
    nodes: Map<Seq<char>, NodeInfo>,
    step: ExecutionStep,
    step_name: Seq<char>,
    event_names: Seq<Seq<char>>,
    outcome: WorkOutcome,
    ts: i64,
)
    ensures
        ({
            let r = routed(b, nodes, step, step_name, event_names, outcome, ts);
            &&& outcome matches WorkOutcome::FullResult { captured_logs } ==> r == logged(
                b,
                step_name,
                opt_logs(captured_logs),
                ts,
            )
            &&& outcome matches WorkOutcome::WorkerSummary { reply, input_versions, step_config }
                ==> r == worker_replied(
                b,
                nodes,
                step,
                step_name,
                reply,
                pairs_view(input_versions@),
                step_config,
                ts,
            )
            &&& outcome matches WorkOutcome::Error {
                error,
                classified,
                captured_logs,
                failure_config,
            } ==> {
                &&& r.failures == b.failures.push((step_name, error@))
                &&& forall|n: Seq<char>| #[trigger]
                    r.failed.contains(n) <==> b.failed.contains(n) || event_names.contains(n)
                &&& r == handled_failure(
                    logged(b, step_name, opt_logs(captured_logs), ts),
                    nodes,
                    step.name@,
                    step_name,
                    event_names,
                    error@,
                    classified@,
                    failure_config,
                    ts,
                )
            }
        }),
{
    if let WorkOutcome::Error { error, classified, captured_logs, failure_config } = outcome {
        lemma_logged(b, step_name, opt_logs(captured_logs), ts);
        lemma_handled_failure(
            logged(b, step_name, opt_logs(captured_logs), ts),
            nodes,
            step.name@,
            step_name,
            event_names,
            error@,
            classified@,
            failure_config,
            ts,
        );
    }
}

} // verus!
