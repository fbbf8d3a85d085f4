//! What follows from the result of a step: the records of its outputs, the data
//! versions that later steps read, the hooks, and the failures.
use vstd::prelude::*;
use vstd::string::*;
use crate::errors::{Fault, FaultKind};
use crate::executor::batch::{
    execution_error, failed_partitions_of, failed_step, keyed_event, logged, mark_map, marks_view,
    marks_wf, recorded_failure, succeeded_step, text_map, with_effect, with_failed, with_failure,
    with_version, Batch, BatchView, Effect, EffectView, ErrView, Mark, StepError,
};
use crate::executor::events::{
    opt_logs, pairs_view, plain_event, CapturedLogs, ClassView, Classified, EventType, EventView,
    TypeView,
};
use crate::executor::obj::{Obj, NONE_ID};
use crate::executor::outputs::{or_version, version_or, ResultKind};
use crate::executor::plan::{event_names_of, ExecutionStep, NodeInfo, NodeMap};
use crate::names::{NameMap, NameSet};
use crate::partitions::grid::opt_text;
use crate::partitions::key::KeyView;
use crate::text::{copy_texts, same_text, say3, texts};

verus! {

/// Whether a text has the shape of a random name: five groups with hyphens between them,
/// and the digit of its kind.
pub open spec fn version_shape(t: Seq<char>) -> bool {
    &&& t.len() == 36
    &&& t[8] == '-' && t[13] == '-' && t[18] == '-' && t[23] == '-'
    &&& t[14] == '4'
}

/// A fresh name that `uuid::Uuid::new_v4` makes, as text: 36 characters, hyphens between
/// its five groups, and the digit of its kind. Nothing is stated of the other characters,
/// which rest on chance.
#[verifier::external_body]
fn uuid_v4() -> (r: String)
    ensures
        version_shape(r@),
{
    uuid::Uuid::new_v4().to_string()
}

/// A data version for an output that has none.
pub fn fresh_version() -> (r: String)
    ensures
        version_shape(r@),
{
    uuid_v4()
}

/// The marks of a step kept for every name under which it reports.
pub open spec fn marks_for_all(
    m: Map<Seq<char>, Seq<(KeyView, Seq<char>)>>,
    names: Seq<Seq<char>>,
    marks: Seq<(KeyView, Seq<char>)>,
) -> Map<Seq<char>, Seq<(KeyView, Seq<char>)>>
    decreases names.len(),
{
    if names.len() == 0 {
        m
    } else {
        marks_for_all(m, names.drop_last(), marks).insert(names.last(), marks)
    }
}

/// A run after the marks of a step were kept. No marks change nothing.
pub open spec fn stashed(
    b: BatchView,
    step: ExecutionStep,
    marks: Seq<(KeyView, Seq<char>)>,
) -> BatchView {
    if marks.len() == 0 {
        b
    } else {
        BatchView { marks: marks_for_all(b.marks, event_names_of(step), marks), ..b }
    }
}

fn copy_marks(v: &Vec<Mark>) -> (r: Vec<Mark>)
    requires
        marks_wf(v@),
    ensures
        marks_wf(r@),
        marks_view(r@) == marks_view(v@),
{
    let mut out: Vec<Mark> = Vec::new();
    let mut i: usize = 0;
    while i < v.len()
        invariant
            marks_wf(v@),
            i <= v@.len(),
            out@.len() == i,
            marks_wf(out@),
            forall|j: int|
                0 <= j < i ==> (#[trigger] out@[j]).0@ == v@[j].0@ && out@[j].1@ == v@[j].1@,
        decreases v@.len() - i,
    {
        proof {
            assert(v@[i as int].0.wf());
        }
        out.push((v[i].0.copy(), v[i].1.clone()));
        i += 1;
    }
    proof {
        assert(marks_view(out@) =~= marks_view(v@));
    }
    out
}

impl Batch {
    /// Keeps the marks of a step, so that its records leave out what they name.
    pub fn stash_failed_partitions(&mut self, step: &ExecutionStep, marks: &Vec<Mark>)
        requires
            old(self).wf(),
            marks_wf(marks@),
        ensures
            final(self).wf(),
            final(self)@ == stashed(old(self)@, *step, marks_view(marks@)),
    {
        proof {
            assert(marks_view(marks@).len() == marks@.len());
        }
        if marks.len() == 0 {
            return;
        }
        let names = step.event_names();
        let ghost b0 = self@;
        let ghost ns = texts(names@);
        let ghost mv = marks_view(marks@);
        let mut i: usize = 0;
        proof {
            assert(ns.take(0) =~= Seq::empty());
        }
        while i < names.len()
            invariant
                marks_wf(marks@),
                self.wf(),
                ns == texts(names@),
                mv == marks_view(marks@),
                i <= names@.len(),
                self@ == (BatchView {
                    marks: marks_for_all(b0.marks, ns.take(i as int), mv),
                    ..b0
                }),
            decreases names@.len() - i,
        {
            proof {
                assert(ns.take(i + 1).drop_last() =~= ns.take(i as int));
                assert(ns.take(i + 1).last() == names@[i as int]@);
            }
            let ghost before = self.failed_partitions@;
            let copy = copy_marks(marks);
            let ghost cv = copy;
            self.failed_partitions.insert(names[i].clone(), copy);
            proof {
                assert(mark_map(self.failed_partitions@) =~= mark_map(before).insert(
                    names@[i as int]@,
                    marks_view(cv@),
                ));
            }
            i += 1;
        }
        proof {
            assert(ns.take(i as int) =~= ns);
        }
    }
}

/// The known data versions of a list of names, in the order of the names.
pub open spec fn versions_of(versions: Map<Seq<char>, Seq<char>>, deps: Seq<Seq<char>>) -> Seq<
    (Seq<char>, Seq<char>),
>
    decreases deps.len(),
{
    if deps.len() == 0 {
        Seq::empty()
    } else if versions.dom().contains(deps.last()) {
        versions_of(versions, deps.drop_last()).push((deps.last(), versions[deps.last()]))
    } else {
        versions_of(versions, deps.drop_last())
    }
}

/// Look up the data versions for upstream dependencies.
pub fn collect_input_data_versions(versions: &NameMap<String>, dependencies: &Vec<String>) -> (r:
    Vec<(String, String)>)
    ensures
        pairs_view(r@) == versions_of(text_map(versions@), texts(dependencies@)),
{
    let ghost t = texts(dependencies@);
    let mut out: Vec<(String, String)> = Vec::new();
    let mut i: usize = 0;
    proof {
        assert(t.take(0) =~= Seq::empty());
        assert(pairs_view(out@) =~= Seq::empty());
        assert(text_map(versions@).dom() =~= versions@.dom());
    }
    while i < dependencies.len()
        invariant
            t == texts(dependencies@),
            text_map(versions@).dom() == versions@.dom(),
            i <= t.len(),
            pairs_view(out@) == versions_of(text_map(versions@), t.take(i as int)),
        decreases t.len() - i,
    {
        proof {
            assert(t.take(i + 1).drop_last() =~= t.take(i as int));
            assert(t.take(i + 1).last() == dependencies@[i as int]@);
        }
        if let Some(dv) = versions.get(dependencies[i].as_str()) {
            let ghost prev = pairs_view(out@);
            out.push((dependencies[i].clone(), dv.clone()));
            proof {
                assert(pairs_view(out@) =~= prev.push((t[i as int], dv@)));
            }
        }
        i += 1;
    }
    proof {
        assert(t.take(i as int) =~= t);
    }
    out
}

/// A run after the failure of each name of a list was recorded and marked.
pub open spec fn failed_all(
    b: BatchView,
    names: Seq<Seq<char>>,
    error: Seq<char>,
    class: ClassView,
    ts: i64,
) -> BatchView
    decreases names.len(),
{
    if names.len() == 0 {
        b
    } else {
        let before = failed_all(b, names.drop_last(), error, class, ts);
        with_failed(
            failed_partitions_of(
                failed_step(before, names.last(), error, Some(class), ts),
                names.last(),
                error,
                ts,
            ),
            names.last(),
        )
    }
}

/// A run after the failure hooks of a node were asked for, where it has any.
pub open spec fn failure_hooks(
    b: BatchView,
    nodes: Map<Seq<char>, NodeInfo>,
    node: Seq<char>,
    name: Seq<char>,
    error: Seq<char>,
    config: Option<Obj>,
) -> BatchView {
    if nodes.dom().contains(node) && nodes[node].has_failure_hooks {
        with_effect(b, EffectView::FailureHooks(node, name, error, config))
    } else {
        b
    }
}

/// A run after the success hooks of a node were asked for, where it has any.
pub open spec fn success_hooks(
    b: BatchView,
    nodes: Map<Seq<char>, NodeInfo>,
    node: Seq<char>,
    name: Seq<char>,
    output: Obj,
    config: Option<Obj>,
) -> BatchView {
    if nodes.dom().contains(node) && nodes[node].has_success_hooks {
        with_effect(b, EffectView::SuccessHooks(node, name, output, config))
    } else {
        b
    }
}

/// A run after the failure of a step: a record and a mark for each of its names, the
/// failure hooks once, and the failure itself.
pub open spec fn handled_failure(
    b: BatchView,
    nodes: Map<Seq<char>, NodeInfo>,
    node: Seq<char>,
    hook_name: Seq<char>,
    names: Seq<Seq<char>>,
    e: ErrView,
    class: ClassView,
    config: Option<Obj>,
    ts: i64,
) -> BatchView {
    with_failure(
        failure_hooks(failed_all(b, names, e.1, class, ts), nodes, node, hook_name, e.1, config),
        hook_name,
        e,
    )
}

impl Batch {
    /// Asks for the failure hooks of a node, where it has any.
    pub fn run_failure_hooks(
        &mut self,
        nodes: &NodeMap,
        node: &str,
        name: &str,
        error: &str,
        config: Option<Obj>,
    )
        requires
            old(self).wf(),
        ensures
            final(self).wf(),
            final(self)@ == failure_hooks(old(self)@, nodes@, node@, name@, error@, config),
    {
        if let Some(n) = nodes.get(node) {
            if n.has_failure_hooks {
                self.effect(
                    Effect::FailureHooks {
                        node: node.to_owned(),
                        name: name.to_owned(),
                        error: error.to_owned(),
                        config,
                    },
                );
            }
        }
    }

    /// Asks for the success hooks of a node, where it has any.
    pub fn run_success_hooks(
        &mut self,
        nodes: &NodeMap,
        node: &str,
        name: &str,
        output: Obj,
        config: Option<Obj>,
    )
        requires
            old(self).wf(),
        ensures
            final(self).wf(),
            final(self)@ == success_hooks(old(self)@, nodes@, node@, name@, output, config),
    {
        if let Some(n) = nodes.get(node) {
            if n.has_success_hooks {
                self.effect(
                    Effect::SuccessHooks {
                        node: node.to_owned(),
                        name: name.to_owned(),
                        output,
                        config,
                    },
                );
            }
        }
    }

    /// Records the failure of every name of a list, marks each failed, runs the
    /// failure hooks once, and reports the error under the name for hooks.
    pub fn handle_failure(
        &mut self,
        nodes: &NodeMap,
        node: &str,
        name_for_hooks: &str,
        event_names: &Vec<String>,
        error: StepError,
        classified: &Classified,
        config: Option<Obj>,
        ts: i64,
    )
        requires
            old(self).wf(),
        ensures
            final(self).wf(),
            final(self)@ == handled_failure(
                old(self)@,
                nodes@,
                node@,
                name_for_hooks@,
                texts(event_names@),
                error@,
                classified@,
                config,
                ts,
            ),
    {
        let msg = error.text();
        let ghost b0 = self@;
        let ghost ns = texts(event_names@);
        let mut i: usize = 0;
        proof {
            assert(ns.take(0) =~= Seq::empty());
        }
        while i < event_names.len()
            invariant
                self.wf(),
                ns == texts(event_names@),
                i <= ns.len(),
                self@ == failed_all(b0, ns.take(i as int), msg@, classified@, ts),
            decreases ns.len() - i,
        {
            proof {
                assert(ns.take(i + 1).drop_last() =~= ns.take(i as int));
                assert(ns.take(i + 1).last() == event_names@[i as int]@);
            }
            let name = event_names[i].as_str();
            self.emit_step_failure(name, msg.as_str(), Some(classified), ts);
            self.emit_partition_failures(name, msg.as_str(), ts);
            self.mark_failed(name.to_owned());
            i += 1;
        }
        proof {
            assert(ns.take(i as int) =~= ns);
        }
        self.run_failure_hooks(nodes, node, name_for_hooks, msg.as_str(), config);
        self.push_failure(name_for_hooks.to_owned(), error);
    }
}

/// The record of a materialization, without its partition.
pub open spec fn materialization(
    b: BatchView,
    name: Seq<char>,
    metadata: Seq<(Seq<char>, Seq<char>)>,
    version: Option<Seq<char>>,
    inputs: Seq<(Seq<char>, Seq<char>)>,
    ts: i64,
) -> EventView {
    EventView {
        metadata,
        inputs,
        ..plain_event(TypeView::Materialization(version), b.origin, name, ts)
    }
}

/// The record of an observation, without its partition.
pub open spec fn observation(
    b: BatchView,
    name: Seq<char>,
    metadata: Seq<(Seq<char>, Seq<char>)>,
    version: Option<Seq<char>>,
    ts: i64,
) -> EventView {
    EventView { metadata, ..plain_event(TypeView::Observation(version), b.origin, name, ts) }
}

/// A run after an output was materialized: its record, its data version, its success
/// and its hooks.
pub open spec fn materialized(
    b: BatchView,
    nodes: Map<Seq<char>, NodeInfo>,
    node: Seq<char>,
    name: Seq<char>,
    metadata: Seq<(Seq<char>, Seq<char>)>,
    version: Seq<char>,
    inputs: Seq<(Seq<char>, Seq<char>)>,
    output: Obj,
    config: Option<Obj>,
    ts: i64,
) -> BatchView {
    success_hooks(
        succeeded_step(
            with_version(
                keyed_event(
                    b,
                    name,
                    materialization(b, name, metadata, Some(version), inputs, ts),
                ),
                name,
                version,
            ),
            name,
            ts,
        ),
        nodes,
        node,
        name,
        output,
        config,
    )
}

/// A run after something was observed: the record and, where `keep` holds, the data
/// version, and the success.
pub open spec fn observed(
    b: BatchView,
    name: Seq<char>,
    metadata: Seq<(Seq<char>, Seq<char>)>,
    version: Option<Seq<char>>,
    keep: bool,
    ts: i64,
) -> BatchView {
    let noted = keyed_event(b, name, observation(b, name, metadata, version, ts));
    succeeded_step(
        match version {
            Some(v) => if keep {
                with_version(noted, name, v)
            } else {
                noted
            },
            None => noted,
        },
        name,
        ts,
    )
}

/// A run after the mapping keys of an output were kept, where there are any.
pub open spec fn kept_keys(
    b: BatchView,
    name: Seq<char>,
    version: Seq<char>,
    keys: Option<Seq<Seq<char>>>,
) -> BatchView {
    match keys {
        Some(k) => if k.len() > 0 {
            with_effect(b, EffectView::PersistKeys(name, version, k))
        } else {
            b
        },
        None => b,
    }
}

/// What an optional list of texts is.
pub open spec fn opt_texts(k: Option<Vec<String>>) -> Option<Seq<Seq<char>>> {
    match k {
        Some(v) => Some(texts(v@)),
        None => None,
    }
}

impl Batch {
    /// Records a materialization and asks for the success hooks of its node.
    pub fn emit_materialization_and_hooks(
        &mut self,
        nodes: &NodeMap,
        node: &str,
        name: &str,
        metadata: &Vec<(String, String)>,
        final_dv: String,
        input_versions: &Vec<(String, String)>,
        value: Option<Obj>,
        config: Option<Obj>,
        ts: i64,
    )
        requires
            old(self).wf(),
        ensures
            final(self).wf(),
            final(self)@ == materialized(
                old(self)@,
                nodes@,
                node@,
                name@,
                pairs_view(metadata@),
                final_dv@,
                pairs_view(input_versions@),
                match value {
                    Some(v) => v,
                    None => Obj(NONE_ID),
                },
                config,
                ts,
            ),
    {
        self.emit_keyed(
            name,
            EventType::Materialization { data_version: Some(final_dv.clone()) },
            metadata,
            input_versions,
            ts,
        );
        self.record_data_version(name.to_owned(), final_dv);
        self.emit_success(name, ts);
        let output = match value {
            Some(v) => v,
            None => Obj(NONE_ID),
        };
        self.run_success_hooks(nodes, node, name, output, config);
    }

    /// Records an observation, and its data version where `keep` holds.
    pub fn emit_observed(
        &mut self,
        name: &str,
        metadata: &Vec<(String, String)>,
        data_version: Option<String>,
        keep: bool,
        ts: i64,
    )
        requires
            old(self).wf(),
        ensures
            final(self).wf(),
            final(self)@ == observed(
                old(self)@,
                name@,
                pairs_view(metadata@),
                opt_text(data_version),
                keep,
                ts,
            ),
    {
        let none: Vec<(String, String)> = Vec::new();
        proof {
            assert(pairs_view(none@) =~= Seq::empty());
        }
        let noted = EventType::Observation {
            data_version: crate::executor::outputs::copy_opt(&data_version),
        };
        self.emit_keyed(name, noted, metadata, &none, ts);
        if keep {
            if let Some(dv) = data_version {
                self.record_data_version(name.to_owned(), dv);
            }
        }
        self.emit_success(name, ts);
    }

    /// Asks for the mapping keys of an output to be kept, where there are any.
    pub fn persist_dynamic_keys(
        &mut self,
        name: &str,
        data_version: &str,
        keys: Option<&Vec<String>>,
    )
        requires
            old(self).wf(),
        ensures
            final(self).wf(),
            final(self)@ == kept_keys(
                old(self)@,
                name@,
                data_version@,
                match keys {
                    Some(k) => Some(texts(k@)),
                    None => None,
                },
            ),
    {
        if let Some(k) = keys {
            proof {
                assert(texts(k@).len() == k@.len());
            }
            if k.len() > 0 {
                self.effect(
                    Effect::PersistKeys {
                        name: name.to_owned(),
                        data_version: data_version.to_owned(),
                        keys: copy_texts(k),
                    },
                );
            }
        }
    }
}

/// What the host does before it goes through the outputs of a step.
#[derive(Debug)]
pub enum ResultStart {
    /// Nothing more: the result was recorded.
    Done,
    /// Write the result as the output of this graph asset too, and report how that
    /// went.
    WriteGraph(String),
    /// Go through the outputs.
    Walk,
}

/// The progress of the outputs of a step.
#[derive(Debug)]
pub struct ResultRun {
    pub input_versions: Vec<(String, String)>,
    /// The mapping keys of a single output.
    pub dynamic_keys: Option<Vec<String>>,
    pub yielded: NameSet,
    pub marks_stashed: bool,
}

/// What the progress of outputs is.
pub struct RunView {
    pub inputs: Seq<(Seq<char>, Seq<char>)>,
    pub keys: Option<Seq<Seq<char>>>,
    pub yielded: Set<Seq<char>>,
    pub marks_stashed: bool,
}

impl View for ResultRun {
    type V = RunView;

    open spec fn view(&self) -> RunView {
        RunView {
            inputs: pairs_view(self.input_versions@),
            keys: opt_texts(self.dynamic_keys),
            yielded: self.yielded@,
            marks_stashed: self.marks_stashed,
        }
    }
}

/// Whether a step has one output.
pub open spec fn is_single(step: ExecutionStep) -> bool {
    step.outputs@.len() == 0
}

/// A run when the result of a step has been received: its marks are kept, and a
/// single output that is no map instance has its mapping keys recorded.
pub open spec fn received(
    b: BatchView,
    step: ExecutionStep,
    step_name: Seq<char>,
    marks: Seq<(KeyView, Seq<char>)>,
    keys: Option<Seq<Seq<char>>>,
) -> BatchView {
    let kept = stashed(b, step, marks);
    if is_single(step) && step_name == step.name@ {
        BatchView {
            dynamic: kept.dynamic.insert(
                step.name@,
                match keys {
                    Some(k) => k,
                    None => Seq::empty(),
                },
            ),
            ..kept
        }
    } else {
        kept
    }
}

/// The progress of outputs when none has been recorded. A map instance reads no
/// versions of its own; only a single output has mapping keys.
pub open spec fn fresh_run(
    b: BatchView,
    step: ExecutionStep,
    step_name: Seq<char>,
    keys: Option<Seq<Seq<char>>>,
) -> RunView {
    RunView {
        inputs: if step_name == step.name@ {
            versions_of(b.versions, texts(step.graph_dependencies@))
        } else {
            Seq::empty()
        },
        keys: if is_single(step) {
            keys
        } else {
            None
        },
        yielded: Set::empty(),
        marks_stashed: false,
    }
}

/// The node whose rules apply to an output: that of the step for a single output,
/// else its own.
pub open spec fn output_node(step: ExecutionStep, name: Seq<char>) -> Seq<char> {
    if is_single(step) {
        step.name@
    } else {
        name
    }
}

/// The version of a written output: what writing it gave, else what it declares,
/// else a fresh one.
pub open spec fn final_version(
    io: Option<Seq<char>>,
    declared: Option<Seq<char>>,
    fresh: Seq<char>,
) -> Seq<char> {
    match or_version(io, declared) {
        Some(v) => v,
        None => fresh,
    }
}

/// The names that fail with a step whose outputs could not all be recorded: a map
/// instance fails itself, a single output all of its names, several outputs those
/// that were not recorded.
pub open spec fn names_to_fail(step: ExecutionStep, step_name: Seq<char>, run: RunView) -> Seq<
    Seq<char>,
> {
    if step_name != step.name@ {
        seq![step_name]
    } else if is_single(step) {
        event_names_of(step)
    } else {
        not_yielded(event_names_of(step), run.yielded)
    }
}

/// The names of a list that were not recorded.
pub open spec fn not_yielded(names: Seq<Seq<char>>, yielded: Set<Seq<char>>) -> Seq<Seq<char>>
    decreases names.len(),
{
    if names.len() == 0 {
        names
    } else if yielded.contains(names.last()) {
        not_yielded(names.drop_last(), yielded)
    } else {
        not_yielded(names.drop_last(), yielded).push(names.last())
    }
}

/// Every selected output that was not recorded is among those that fail, and none
/// that was.
pub proof fn lemma_not_yielded(names: Seq<Seq<char>>, yielded: Set<Seq<char>>)
    ensures
        forall|n: Seq<char>| #[trigger]
            not_yielded(names, yielded).contains(n) <==> names.contains(n) && !yielded.contains(n),
    decreases names.len(),
{
    if names.len() > 0 {
        let w = names.drop_last();
        let u = not_yielded(w, yielded);
        let r = not_yielded(names, yielded);
        lemma_not_yielded(w, yielded);
        assert forall|n: Seq<char>| #[trigger] r.contains(n) <==> names.contains(n)
            && !yielded.contains(n) by {
            if r.contains(n) {
                let i = choose|i: int| 0 <= i < r.len() && r[i] == n;
                if i < u.len() {
                    assert(u[i] == n);
                    assert(u.contains(n));
                    let j = choose|j: int| 0 <= j < w.len() && w[j] == n;
                    assert(names[j] == n);
                } else {
                    assert(names[names.len() - 1] == n);
                }
            }
            if names.contains(n) && !yielded.contains(n) {
                let j = choose|j: int| 0 <= j < names.len() && names[j] == n;
                if j < w.len() {
                    assert(w[j] == n);
                    assert(w.contains(n));
                    assert(u.contains(n));
                    let i = choose|i: int| 0 <= i < u.len() && u[i] == n;
                    assert(r[i] == n);
                } else {
                    assert(r[u.len() as int] == n);
                }
            }
        }
    }
}

/// A run after each output that was not recorded was reported as such.
pub open spec fn reported_missing(b: BatchView, names: Seq<Seq<char>>, ts: i64) -> BatchView
    decreases names.len(),
{
    if names.len() == 0 {
        b
    } else {
        let before = reported_missing(b, names.drop_last(), ts);
        recorded_failure(
            before,
            names.last(),
            execution_error(
                "Generator multi-asset did not yield output '"@ + names.last() + "'"@,
            ),
            before.own_class,
            ts,
        )
    }
}

/// A run after the outputs of a step have been gone through.
pub open spec fn finished_result(
    b: BatchView,
    run: RunView,
    nodes: Map<Seq<char>, NodeInfo>,
    step: ExecutionStep,
    step_name: Seq<char>,
    error: Option<(ErrView, ClassView)>,
    config: Option<Obj>,
    ts: i64,
) -> BatchView {
    match error {
        Some(e) => handled_failure(
            b,
            nodes,
            step.name@,
            step_name,
            names_to_fail(step, step_name, run),
            e.0,
            e.1,
            config,
            ts,
        ),
        None => if is_single(step) {
            b
        } else {
            reported_missing(b, not_yielded(texts(step.outputs@), run.yielded), ts)
        },
    }
}

fn missing_of(names: &Vec<String>, yielded: &NameSet) -> (r: Vec<String>)
    ensures
        texts(r@) == not_yielded(texts(names@), yielded@),
{
    let ghost t = texts(names@);
    let mut out: Vec<String> = Vec::new();
    let mut i: usize = 0;
    proof {
        assert(t.take(0) =~= Seq::empty());
        assert(texts(out@) =~= Seq::empty());
    }
    while i < names.len()
        invariant
            t == texts(names@),
            i <= t.len(),
            texts(out@) == not_yielded(t.take(i as int), yielded@),
        decreases t.len() - i,
    {
        proof {
            assert(t.take(i + 1).drop_last() =~= t.take(i as int));
            assert(t.take(i + 1).last() == names@[i as int]@);
        }
        if !yielded.contains(names[i].as_str()) {
            let ghost prev = texts(out@);
            out.push(names[i].clone());
            proof {
                assert(texts(out@) =~= prev.push(t[i as int]));
            }
        }
        i += 1;
    }
    proof {
        assert(t.take(i as int) =~= t);
    }
    out
}

/// What a step returned, apart from its outputs.
#[derive(Debug)]
pub struct ResultInfo {
    /// The partitions that the step marked as failed.
    pub failed_partitions: Vec<Mark>,
    /// The mapping keys of the result, where it is a list of dynamic outputs.
    pub dynamic_keys: Option<Vec<String>>,
    /// The data version that the step registered.
    pub data_version: Option<String>,
    /// The metadata of the step, as text.
    pub metadata: Vec<(String, String)>,
}

/// A run after the result of an external asset was recorded: an observation, no
/// write.
pub open spec fn external_observed(
    b: BatchView,
    step: ExecutionStep,
    step_name: Seq<char>,
    info: ResultInfo,
    ts: i64,
) -> BatchView {
    observed(
        stashed(b, step, marks_view(info.failed_partitions@)),
        step_name,
        pairs_view(info.metadata@),
        opt_text(info.data_version),
        true,
        ts,
    )
}

impl Batch {
    /// Receives the result of a step. An external asset is observed, and that is
    /// all. `final_nodes` names, for the last task of a graph asset, that asset: the
    /// result of the task is the asset's too.
    pub fn process_step_result(
        &mut self,
        nodes: &NodeMap,
        final_nodes: &NameMap<String>,
        step: &ExecutionStep,
        step_name: &str,
        info: &ResultInfo,
        ts: i64,
    ) -> (r: ResultStart)
        requires
            old(self).wf(),
            marks_wf(info.failed_partitions@),
            nodes@.dom().contains(step.name@),
        ensures
            final(self).wf(),
            nodes@[step.name@].is_external ==> r is Done && final(self)@ == external_observed(
                old(self)@,
                *step,
                step_name@,
                *info,
                ts,
            ),
            !nodes@[step.name@].is_external ==> {
                &&& final(self)@ == received(
                    old(self)@,
                    *step,
                    step_name@,
                    marks_view(info.failed_partitions@),
                    opt_texts(info.dynamic_keys),
                )
                &&& match r {
                    ResultStart::Done => false,
                    ResultStart::WriteGraph(g) => {
                        &&& is_single(*step) && step_name@ == step.name@
                        &&& final_nodes@.dom().contains(step.name@)
                        &&& final_nodes@[step.name@]@ == g@
                        &&& nodes@.dom().contains(g@)
                    },
                    ResultStart::Walk => !(is_single(*step) && step_name@ == step.name@
                        && final_nodes@.dom().contains(step.name@) && nodes@.dom().contains(
                        final_nodes@[step.name@]@,
                    )),
                }
            },
    {
        self.stash_failed_partitions(step, &info.failed_partitions);
        if let Some(node) = nodes.get(step.name.as_str()) {
            if node.is_external {
                self.emit_observed(
                    step_name,
                    &info.metadata,
                    crate::executor::outputs::copy_opt(&info.data_version),
                    true,
                    ts,
                );
                return ResultStart::Done;
            }
        }
        if step.outputs.len() == 0 && same_text(step_name, step.name.as_str()) {
            let keys = match &info.dynamic_keys {
                Some(k) => copy_texts(k),
                None => Vec::new(),
            };
            proof {
                assert(texts(keys@) =~= match opt_texts(info.dynamic_keys) {
                    Some(k) => k,
                    None => Seq::empty(),
                });
            }
            self.record_dynamic_keys(step.name.clone(), keys);
            if let Some(graph) = final_nodes.get(step.name.as_str()) {
                if nodes.contains(graph.as_str()) {
                    return ResultStart::WriteGraph(graph.clone());
                }
            }
        }
        ResultStart::Walk
    }

    /// The outputs of a step are about to be gone through.
    pub fn begin_outputs(
        &self,
        step: &ExecutionStep,
        step_name: &str,
        dynamic_keys: &Option<Vec<String>>,
    ) -> (r: ResultRun)
        ensures
            r@ == fresh_run(self@, *step, step_name@, opt_texts(*dynamic_keys)),
    {
        let input_versions = if same_text(step_name, step.name.as_str()) {
            collect_input_data_versions(&self.data_versions, &step.graph_dependencies)
        } else {
            let none: Vec<(String, String)> = Vec::new();
            proof {
                assert(pairs_view(none@) =~= Seq::empty());
            }
            none
        };
        let keys = if step.outputs.len() == 0 {
            match dynamic_keys {
                Some(k) => Some(copy_texts(k)),
                None => None,
            }
        } else {
            None
        };
        ResultRun {
            input_versions,
            dynamic_keys: keys,
            yielded: NameSet::new(),
            marks_stashed: false,
        }
    }

    /// The first output of a generator has arrived: the marks that the generator has
    /// made by then are kept. Later ones come too late.
    pub fn first_output(&mut self, run: &mut ResultRun, step: &ExecutionStep, marks: &Vec<Mark>)
        requires
            old(self).wf(),
            marks_wf(marks@),
        ensures
            final(self).wf(),
            final(run)@ == (RunView { marks_stashed: true, ..old(run)@ }),
            final(self)@ == if old(run)@.marks_stashed {
                old(self)@
            } else {
                stashed(old(self)@, *step, marks_view(marks@))
            },
    {
        if !run.marks_stashed {
            run.marks_stashed = true;
            self.stash_failed_partitions(step, marks);
        }
    }

    /// The node whose rules apply to an output.
    pub fn output_target(&self, nodes: &NodeMap, step: &ExecutionStep, name: &str) -> (r: Result<
        String,
        Fault,
    >)
        ensures
            match r {
                Ok(n) => n@ == output_node(*step, name@) && nodes@.dom().contains(n@),
                Err(e) => !nodes@.dom().contains(output_node(*step, name@)) && e@ == (
                    FaultKind::Execution,
                    "Output '"@ + output_node(*step, name@) + "' not found in node_map"@,
                ),
            },
    {
        let lookup = if step.outputs.len() == 0 {
            step.name.as_str()
        } else {
            name
        };
        if nodes.contains(lookup) {
            Ok(lookup.to_owned())
        } else {
            Err(Fault::execution(say3("Output '", lookup, "' not found in node_map")))
        }
    }

    /// Records a materialized output: `value` is what was written, unless the asset
    /// wrote itself, `io_version` the version that writing gave. Mapping keys are kept
    /// before the success is recorded.
    pub fn output_materialized(
        &mut self,
        run: &mut ResultRun,
        nodes: &NodeMap,
        step: &ExecutionStep,
        name: &str,
        value: Option<Obj>,
        metadata: &Vec<(String, String)>,
        io_version: Option<String>,
        declared: Option<String>,
        fresh: String,
        config: Option<Obj>,
        ts: i64,
    )
        requires
            old(self).wf(),
        ensures
            final(self).wf(),
            final(run)@ == (RunView { yielded: old(run)@.yielded.insert(name@), ..old(run)@ }),
            final(self)@ == output_recorded(
                old(self)@,
                old(run)@,
                nodes@,
                *step,
                name@,
                value,
                pairs_view(metadata@),
                opt_text(io_version),
                opt_text(declared),
                fresh@,
                config,
                ts,
            ),
    {
        let io = if value.is_some() {
            io_version
        } else {
            None
        };
        let version = match version_or(io, declared) {
            Some(v) => v,
            None => fresh,
        };
        if step.outputs.len() == 0 && value.is_some() {
            match &run.dynamic_keys {
                Some(k) => {
                    self.persist_dynamic_keys(name, version.as_str(), Some(k));
                },
                None => {},
            }
        }
        let node = if step.outputs.len() == 0 {
            step.name.as_str()
        } else {
            name
        };
        self.emit_materialization_and_hooks(
            nodes,
            node,
            name,
            metadata,
            version,
            &run.input_versions,
            value,
            config,
            ts,
        );
        let _ = run.yielded.insert(name.to_owned());
    }

    /// Records an observed output.
    pub fn output_observed(
        &mut self,
        run: &mut ResultRun,
        name: &str,
        metadata: &Vec<(String, String)>,
        data_version: Option<String>,
        ts: i64,
    )
        requires
            old(self).wf(),
        ensures
            final(self).wf(),
            final(run)@ == (RunView { yielded: old(run)@.yielded.insert(name@), ..old(run)@ }),
            final(self)@ == observed(
                old(self)@,
                name@,
                pairs_view(metadata@),
                opt_text(data_version),
                false,
                ts,
            ),
    {
        self.emit_observed(name, metadata, data_version, false, ts);
        let _ = run.yielded.insert(name.to_owned());
    }

    /// The outputs of a step have been gone through, up to the error, where there
    /// was one.
    pub fn finish_outputs(
        &mut self,
        run: &ResultRun,
        nodes: &NodeMap,
        step: &ExecutionStep,
        step_name: &str,
        error: Option<(StepError, Classified)>,
        config: Option<Obj>,
        ts: i64,
    )
        requires
            old(self).wf(),
        ensures
            final(self).wf(),
            final(self)@ == finished_result(
                old(self)@,
                run@,
                nodes@,
                *step,
                step_name@,
                match error {
                    Some(e) => Some((e.0@, e.1@)),
                    None => None,
                },
                config,
                ts,
            ),
    {
        match error {
            Some((e, class)) => {
                let names = if !same_text(step_name, step.name.as_str()) {
                    let mut v: Vec<String> = Vec::new();
                    v.push(step_name.to_owned());
                    proof {
                        assert(texts(v@) =~= seq![step_name@]);
                    }
                    v
                } else if step.outputs.len() == 0 {
                    step.event_names()
                } else {
                    missing_of(&step.event_names(), &run.yielded)
                };
                self.handle_failure(
                    nodes,
                    step.name.as_str(),
                    step_name,
                    &names,
                    e,
                    &class,
                    config,
                    ts,
                );
            },
            None => {
                if step.outputs.len() != 0 {
                    let names = missing_of(&step.outputs, &run.yielded);
                    let ghost b0 = self@;
                    let ghost t = texts(names@);
                    let mut i: usize = 0;
                    proof {
                        assert(t.take(0) =~= Seq::empty());
                    }
                    while i < names.len()
                        invariant
                            self.wf(),
                            t == texts(names@),
                            i <= t.len(),
                            self@ == reported_missing(b0, t.take(i as int), ts),
                        decreases t.len() - i,
                    {
                        proof {
                            assert(t.take(i + 1).drop_last() =~= t.take(i as int));
                            assert(t.take(i + 1).last() == names@[i as int]@);
                        }
                        let msg = say3(
                            "Generator multi-asset did not yield output '",
                            names[i].as_str(),
                            "'",
                        );
                        self.record_own_failure(names[i].as_str(), msg, ts);
                        i += 1;
                    }
                    proof {
                        assert(t.take(i as int) =~= t);
                    }
                }
            },
        }
    }
}

/// A run after a materialized output was recorded.
pub open spec fn output_recorded(
    b: BatchView,
    run: RunView,
    nodes: Map<Seq<char>, NodeInfo>,
    step: ExecutionStep,
    name: Seq<char>,
    value: Option<Obj>,
    metadata: Seq<(Seq<char>, Seq<char>)>,
    io: Option<Seq<char>>,
    declared: Option<Seq<char>>,
    fresh: Seq<char>,
    config: Option<Obj>,
    ts: i64,
) -> BatchView {
    let version = final_version(
        if value is Some {
            io
        } else {
            None
        },
        declared,
        fresh,
    );
    materialized(
        if is_single(step) && value is Some {
            kept_keys(b, name, version, run.keys)
        } else {
            b
        },
        nodes,
        output_node(step, name),
        name,
        metadata,
        version,
        run.inputs,
        match value {
            Some(v) => v,
            None => Obj(NONE_ID),
        },
        config,
        ts,
    )
}

/// One output of a worker.
#[derive(Debug)]
pub struct WorkerItem {
    pub name: String,
    pub kind: ResultKind,
    pub metadata: Vec<(String, String)>,
    pub data_version: Option<String>,
}

/// A run after an output of a worker was recorded. The worker has written it, where
/// it had to be written, and does not send the value back.
pub open spec fn worker_recorded(
    b: BatchView,
    nodes: Map<Seq<char>, NodeInfo>,
    step: ExecutionStep,
    item: WorkerItem,
    keys: Option<Seq<Seq<char>>>,
    inputs: Seq<(Seq<char>, Seq<char>)>,
    config: Option<Obj>,
    fresh: Seq<char>,
    ts: i64,
) -> BatchView {
    if item.kind == ResultKind::Observation {
        observed(
            b,
            item.name@,
            pairs_view(item.metadata@),
            opt_text(item.data_version),
            true,
            ts,
        )
    } else {
        let version = final_version(None, opt_text(item.data_version), fresh);
        materialized(
            if is_single(step) && item.kind == ResultKind::Output {
                kept_keys(b, item.name@, version, keys)
            } else {
                b
            },
            nodes,
            output_node(step, item.name@),
            item.name@,
            pairs_view(item.metadata@),
            version,
            inputs,
            Obj(NONE_ID),
            config,
            ts,
        )
    }
}

/// What an output of a worker is, or why it cannot be read.
pub type WorkerOutput = Result<WorkerItem, (StepError, Classified)>;

/// A run after a list of outputs of a worker, each with the version that it gets
/// where it has none. One that cannot be read fails the step and leaves the others.
pub open spec fn worker_outputs_recorded(
    b: BatchView,
    nodes: Map<Seq<char>, NodeInfo>,
    step: ExecutionStep,
    step_name: Seq<char>,
    items: Seq<(WorkerOutput, String)>,
    keys: Option<Seq<Seq<char>>>,
    inputs: Seq<(Seq<char>, Seq<char>)>,
    config: Option<Obj>,
    ts: i64,
) -> BatchView
    decreases items.len(),
{
    if items.len() == 0 {
        b
    } else {
        let before = worker_outputs_recorded(
            b,
            nodes,
            step,
            step_name,
            items.drop_last(),
            keys,
            inputs,
            config,
            ts,
        );
        match items.last().0 {
            Ok(item) => worker_recorded(
                before,
                nodes,
                step,
                item,
                keys,
                inputs,
                config,
                items.last().1@,
                ts,
            ),
            Err(e) => recorded_failure(before, step_name, e.0@, e.1@, ts),
        }
    }
}

/// What a worker sends back.
#[derive(Debug)]
pub struct WorkerReply {
    pub captured_logs: Option<CapturedLogs>,
    /// Its outputs, each with a fresh version, or why they cannot be read.
    pub outputs: Result<Vec<(WorkerOutput, String)>, (StepError, Classified)>,
    pub dynamic_keys: Option<Vec<String>>,
    pub failed_partitions: Vec<Mark>,
}

/// A run after the reply of a worker was recorded.
pub open spec fn worker_replied(
    b: BatchView,
    nodes: Map<Seq<char>, NodeInfo>,
    step: ExecutionStep,
    step_name: Seq<char>,
    reply: WorkerReply,
    inputs: Seq<(Seq<char>, Seq<char>)>,
    config: Option<Obj>,
    ts: i64,
) -> BatchView {
    let spoken = logged(b, step_name, opt_logs(reply.captured_logs), ts);
    match reply.outputs {
        Err(e) => recorded_failure(spoken, step_name, e.0@, e.1@, ts),
        Ok(items) => worker_outputs_recorded(
            stashed(spoken, step, marks_view(reply.failed_partitions@)),
            nodes,
            step,
            step_name,
            items@,
            if is_single(step) {
                opt_texts(reply.dynamic_keys)
            } else {
                None
            },
            inputs,
            config,
            ts,
        ),
    }
}

impl Batch {
    /// Records one output of a worker.
    fn process_one_worker_item(
        &mut self,
        nodes: &NodeMap,
        step: &ExecutionStep,
        item: WorkerItem,
        dynamic_keys: Option<&Vec<String>>,
        input_versions: &Vec<(String, String)>,
        config: Option<Obj>,
        fresh: String,
        ts: i64,
    )
        requires
            old(self).wf(),
        ensures
            final(self).wf(),
            final(self)@ == worker_recorded(
                old(self)@,
                nodes@,
                *step,
                item,
                match dynamic_keys {
                    Some(k) => Some(texts(k@)),
                    None => None,
                },
                pairs_view(input_versions@),
                config,
                fresh@,
                ts,
            ),
    {
        if item.kind == ResultKind::Observation {
            self.emit_observed(
                item.name.as_str(),
                &item.metadata,
                item.data_version,
                true,
                ts,
            );
            return;
        }
        let version = match item.data_version {
            Some(v) => v,
            None => fresh,
        };
        if step.outputs.len() == 0 && item.kind == ResultKind::Output {
            self.persist_dynamic_keys(item.name.as_str(), version.as_str(), dynamic_keys);
        }
        let node = if step.outputs.len() == 0 {
            step.name.as_str()
        } else {
            item.name.as_str()
        };
        self.emit_materialization_and_hooks(
            nodes,
            node,
            item.name.as_str(),
            &item.metadata,
            version,
            input_versions,
            None,
            config,
            ts,
        );
    }

    /// Records what a worker sent back.
    pub fn process_worker_result(
        &mut self,
        nodes: &NodeMap,
        step: &ExecutionStep,
        step_name: &str,
        reply: WorkerReply,
        input_versions: &Vec<(String, String)>,
        config: Option<Obj>,
        ts: i64,
    )
        requires
            old(self).wf(),
            marks_wf(reply.failed_partitions@),
        ensures
            final(self).wf(),
            final(self)@ == worker_replied(
                old(self)@,
                nodes@,
                *step,
                step_name@,
                reply,
                pairs_view(input_versions@),
                config,
                ts,
            ),
    {
        match &reply.captured_logs {
            Some(l) => {
                self.emit_captured_logs(step_name, Some(l), ts);
            },
            None => {},
        }
        let items = match reply.outputs {
            Ok(v) => v,
            Err((e, class)) => {
                self.record_failure_no_hooks(step_name, e, &class, ts);
                return;
            },
        };
        self.stash_failed_partitions(step, &reply.failed_partitions);
        let keys = if step.outputs.len() == 0 {
            reply.dynamic_keys
        } else {
            None
        };
        let ghost kv = opt_texts(keys);
        let ghost all = items@;
        let ghost b0 = self@;
        let ghost inputs = pairs_view(input_versions@);
        let mut rest = items;
        let ghost mut n: int = 0;
        proof {
            assert(all.take(0) =~= Seq::empty());
            assert(all.skip(0) =~= all);
        }
        while rest.len() > 0
            invariant
                self.wf(),
                0 <= n <= all.len(),
                rest@ == all.skip(n),
                kv == opt_texts(keys),
                inputs == pairs_view(input_versions@),
                self@ == worker_outputs_recorded(
                    b0,
                    nodes@,
                    *step,
                    step_name@,
                    all.take(n),
                    kv,
                    inputs,
                    config,
                    ts,
                ),
            decreases rest@.len(),
        {
            let (output, fresh) = rest.remove(0);
            proof {
                assert(all.skip(n)[0] == all[n]);
                assert((output, fresh) == all[n]);
                assert(rest@ =~= all.skip(n + 1));
                assert(all.take(n + 1).drop_last() =~= all.take(n));
                assert(all.take(n + 1).last() == all[n]);
            }
            match output {
                Ok(item) => {
                    let held = match &keys {
                        Some(k) => Some(k),
                        None => None,
                    };
                    self.process_one_worker_item(
                        nodes,
                        step,
                        item,
                        held,
                        input_versions,
                        config,
                        fresh,
                        ts,
                    );
                },
                Err((e, class)) => {
                    self.record_failure_no_hooks(step_name, e, &class, ts);
                },
            }
            proof {
                n = n + 1;
            }
        }
        proof {
            assert(all.take(n) =~= all);
        }
    }
}

/// How the work of a step ended.
#[derive(Debug)]
pub enum WorkOutcome {
    /// It returned; its outputs are still to be written.
    FullResult { captured_logs: Option<CapturedLogs> },
    /// A worker did it and sent back what follows.
    WorkerSummary {
        reply: WorkerReply,
        input_versions: Vec<(String, String)>,
        step_config: Option<Obj>,
    },
    /// It failed.
    Error {
        error: StepError,
        classified: Classified,
        captured_logs: Option<CapturedLogs>,
        failure_config: Option<Obj>,
    },
}

/// A run after the outcome of a step was routed, up to the outputs of a result.
pub open spec fn routed(
    b: BatchView,
    nodes: Map<Seq<char>, NodeInfo>,
    step: ExecutionStep,
    step_name: Seq<char>,
    event_names: Seq<Seq<char>>,
    outcome: WorkOutcome,
    ts: i64,
) -> BatchView {
    match outcome {
        WorkOutcome::FullResult { captured_logs } => logged(
            b,
            step_name,
            opt_logs(captured_logs),
            ts,
        ),
        WorkOutcome::WorkerSummary { reply, input_versions, step_config } => worker_replied(
            b,
            nodes,
            step,
            step_name,
            reply,
            pairs_view(input_versions@),
            step_config,
            ts,
        ),
        WorkOutcome::Error { error, classified, captured_logs, failure_config } => handled_failure(
            logged(b, step_name, opt_logs(captured_logs), ts),
            nodes,
            step.name@,
            step_name,
            event_names,
            error@,
            classified@,
            failure_config,
            ts,
        ),
    }
}

impl Batch {
    /// Routes the outcome of a step. Says whether the outputs of a result are still
    /// to be gone through.
    pub fn process_outcome(
        &mut self,
        nodes: &NodeMap,
        step: &ExecutionStep,
        step_name: &str,
        event_names: &Vec<String>,
        outcome: WorkOutcome,
        ts: i64,
    ) -> (r: bool)
        requires
            old(self).wf(),
            outcome matches WorkOutcome::WorkerSummary { reply, .. } ==> marks_wf(
                reply.failed_partitions@,
            ),
        ensures
            final(self).wf(),
            r == (outcome is FullResult),
            final(self)@ == routed(
                old(self)@,
                nodes@,
                *step,
                step_name@,
                texts(event_names@),
                outcome,
                ts,
            ),
    {
        match outcome {
            WorkOutcome::FullResult { captured_logs } => {
                match &captured_logs {
                    Some(l) => {
                        self.emit_captured_logs(step_name, Some(l), ts);
                    },
                    None => {},
                }
                true
            },
            WorkOutcome::WorkerSummary { reply, input_versions, step_config } => {
                self.process_worker_result(
                    nodes,
                    step,
                    step_name,
                    reply,
                    &input_versions,
                    step_config,
                    ts,
                );
                false
            },
            WorkOutcome::Error { error, classified, captured_logs, failure_config } => {
                match &captured_logs {
                    Some(l) => {
                        self.emit_captured_logs(step_name, Some(l), ts);
                    },
                    None => {},
                }
                self.handle_failure(
                    nodes,
                    step.name.as_str(),
                    step_name,
                    event_names,
                    error,
                    &classified,
                    failure_config,
                    ts,
                );
                false
            },
        }
    }
}

} // verus!
