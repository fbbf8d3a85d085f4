//! The progress of a run and what its steps have left behind.
use vstd::prelude::*;
use vstd::string::*;
use crate::errors::{fault_text, Fault, FaultKind};
use crate::executor::events::{
    bare_event, copy_pairs, emit_log_output, key_or_none, log_event, pairs_view, plain_event,
    step_event, CapturedLogs, ClassView, Classified, EventRecord, EventType, EventView, Origin, OriginView,
    FailureReason, LogsView, TypeView,
};
use crate::executor::obj::Obj;
use crate::names::{NameMap, NameSet};
use crate::partitions::grid::opt_text;
use crate::partitions::key::{key_view, keys_view, lemma_keys_view, KeyView, PyPartitionKey};
use crate::partitions::members::members_of;
use crate::text::texts;

verus! {

/// Why a step failed: an exception of the host and its text, or a fault found here.
#[derive(Debug)]
pub enum StepError {
    Host { error: Obj, text: String },
    Own(Fault),
}

/// The exception of an error, where the host raised it, and its text.
pub type ErrView = (Option<Obj>, Seq<char>);

impl View for StepError {
    type V = ErrView;

    open spec fn view(&self) -> ErrView {
        match *self {
            StepError::Host { error, text } => (Some(error), text@),
            StepError::Own(f) => (None, fault_text(f@)),
        }
    }
}

/// An error of the execution class.
pub open spec fn execution_error(message: Seq<char>) -> ErrView {
    (None, fault_text((FaultKind::Execution, message)))
}

impl StepError {
    /// An error of the execution class.
    pub fn execution(message: String) -> (r: Self)
        ensures
            r@ == execution_error(message@),
    {
        StepError::Own(Fault::execution(message))
    }

    /// The text of the error.
    pub fn text(&self) -> (r: String)
        ensures
            r@ == self@.1,
    {
        match self {
            StepError::Host { text, .. } => text.clone(),
            StepError::Own(f) => f.text(),
        }
    }
}

/// What the host carries out, in order.
#[derive(Debug)]
pub enum Effect {
    /// Write a record.
    Event(EventRecord),
    /// Run the success hooks of a node.
    SuccessHooks { node: String, name: String, output: Obj, config: Option<Obj> },
    /// Run the failure hooks of a node.
    FailureHooks { node: String, name: String, error: String, config: Option<Obj> },
    /// Keep the mapping keys of an output under its data version.
    PersistKeys { name: String, data_version: String, keys: Vec<String> },
}

/// What an effect says.
pub enum EffectView {
    Event(EventView),
    SuccessHooks(Seq<char>, Seq<char>, Obj, Option<Obj>),
    FailureHooks(Seq<char>, Seq<char>, Seq<char>, Option<Obj>),
    PersistKeys(Seq<char>, Seq<char>, Seq<Seq<char>>),
}

impl View for Effect {
    type V = EffectView;

    open spec fn view(&self) -> EffectView {
        match *self {
            Effect::Event(e) => EffectView::Event(e@),
            Effect::SuccessHooks { node, name, output, config } => EffectView::SuccessHooks(
                node@,
                name@,
                output,
                config,
            ),
            Effect::FailureHooks { node, name, error, config } => EffectView::FailureHooks(
                node@,
                name@,
                error@,
                config,
            ),
            Effect::PersistKeys { name, data_version, keys } => EffectView::PersistKeys(
                name@,
                data_version@,
                texts(keys@),
            ),
        }
    }
}

/// What each effect of a list says.
pub open spec fn effects_view(s: Seq<Effect>) -> Seq<EffectView> {
    s.map_values(|e: Effect| e@)
}

/// A key that a step marked as failed, and the reason.
pub type Mark = (PyPartitionKey, String);

/// What each mark of a list says.
pub open spec fn marks_view(s: Seq<Mark>) -> Seq<(KeyView, Seq<char>)> {
    s.map_values(|m: Mark| (m.0@, m.1@))
}

/// The keys of a list of marks are well formed.
pub open spec fn marks_wf(s: Seq<Mark>) -> bool {
    forall|i: int| 0 <= i < s.len() ==> (#[trigger] s[i]).0.wf()
}

/// The texts of each value of a map.
pub open spec fn text_map(m: Map<Seq<char>, String>) -> Map<Seq<char>, Seq<char>> {
    m.map_values(|s: String| s@)
}

/// The texts of each list of a map.
pub open spec fn list_map(m: Map<Seq<char>, Vec<String>>) -> Map<Seq<char>, Seq<Seq<char>>> {
    m.map_values(|s: Vec<String>| texts(s@))
}

/// What the marks of each list of a map say.
pub open spec fn mark_map(m: Map<Seq<char>, Vec<Mark>>) -> Map<
    Seq<char>,
    Seq<(KeyView, Seq<char>)>,
> {
    m.map_values(|s: Vec<Mark>| marks_view(s@))
}

/// What each failure of a list says.
pub open spec fn failures_view(s: Seq<(String, StepError)>) -> Seq<(Seq<char>, ErrView)> {
    s.map_values(|f: (String, StepError)| (f.0@, f.1@))
}

/// The progress of a run.
#[derive(Debug)]
pub struct Batch {
    pub origin: Origin,
    pub partition_key: Option<PyPartitionKey>,
    /// Whether the run performs an action.
    pub is_action: bool,
    /// How the faults found here classify.
    pub own_class: Classified,
    pub data_versions: NameMap<String>,
    pub failed_names: NameSet,
    pub graph_started: NameSet,
    pub mapped_instance_keys: NameMap<Vec<String>>,
    pub failed_partitions: NameMap<Vec<Mark>>,
    /// The mapping keys of each step that ran here; none for one that ran with plain
    /// values.
    pub step_dynamic_keys: NameMap<Vec<String>>,
    pub effects: Vec<Effect>,
    pub failures: Vec<(String, StepError)>,
}

/// What the progress of a run is.
pub struct BatchView {
    pub origin: OriginView,
    pub partition: Option<KeyView>,
    pub is_action: bool,
    pub own_class: ClassView,
    pub versions: Map<Seq<char>, Seq<char>>,
    pub failed: Set<Seq<char>>,
    pub started: Set<Seq<char>>,
    pub mapped: Map<Seq<char>, Seq<Seq<char>>>,
    pub marks: Map<Seq<char>, Seq<(KeyView, Seq<char>)>>,
    pub dynamic: Map<Seq<char>, Seq<Seq<char>>>,
    pub effects: Seq<EffectView>,
    pub failures: Seq<(Seq<char>, ErrView)>,
}

impl View for Batch {
    type V = BatchView;

    open spec fn view(&self) -> BatchView {
        BatchView {
            origin: self.origin@,
            partition: key_or_none(self.partition_key),
            is_action: self.is_action,
            own_class: self.own_class@,
            versions: text_map(self.data_versions@),
            failed: self.failed_names@,
            started: self.graph_started@,
            mapped: list_map(self.mapped_instance_keys@),
            marks: mark_map(self.failed_partitions@),
            dynamic: list_map(self.step_dynamic_keys@),
            effects: effects_view(self.effects@),
            failures: failures_view(self.failures@),
        }
    }
}

/// A run after an effect.
pub open spec fn with_effect(b: BatchView, e: EffectView) -> BatchView {
    BatchView { effects: b.effects.push(e), ..b }
}

/// A run after a record.
pub open spec fn with_event(b: BatchView, e: EventView) -> BatchView {
    with_effect(b, EffectView::Event(e))
}

/// A run after the start of a step.
pub open spec fn started_step(b: BatchView, step: Seq<char>, ts: i64) -> BatchView {
    with_event(b, plain_event(TypeView::StepStart, b.origin, step, ts))
}

/// A run after the success of a step.
pub open spec fn succeeded_step(b: BatchView, step: Seq<char>, ts: i64) -> BatchView {
    with_event(b, plain_event(TypeView::StepSuccess, b.origin, step, ts))
}

/// A run after the record of the failure of a step.
pub open spec fn failed_step(
    b: BatchView,
    step: Seq<char>,
    error: Seq<char>,
    class: Option<ClassView>,
    ts: i64,
) -> BatchView {
    with_event(b, plain_event(TypeView::StepFailure(error, class), b.origin, step, ts))
}

/// The record of a failed partition.
pub open spec fn partition_failure(
    b: BatchView,
    step: Seq<char>,
    key: KeyView,
    error: Seq<char>,
    ts: i64,
) -> EventView {
    EventView {
        partition: Some(key),
        ..plain_event(TypeView::StepFailure(error, None), b.origin, step, ts)
    }
}

/// A run after the failure of a partitioned step: the whole key is recorded as
/// failed, except in a run that performs an action, whose own record says so.
pub open spec fn failed_partitions_of(
    b: BatchView,
    step: Seq<char>,
    error: Seq<char>,
    ts: i64,
) -> BatchView {
    match b.partition {
        Some(pk) => if b.is_action {
            b
        } else {
            with_event(b, partition_failure(b, step, pk, error, ts))
        },
        None => b,
    }
}

/// A run in which a name has failed.
pub open spec fn with_failed(b: BatchView, name: Seq<char>) -> BatchView {
    BatchView { failed: b.failed.insert(name), ..b }
}

/// A run with one more failure to report.
pub open spec fn with_failure(b: BatchView, name: Seq<char>, e: ErrView) -> BatchView {
    BatchView { failures: b.failures.push((name, e)), ..b }
}

/// A run in which the data version of a name is known.
pub open spec fn with_version(b: BatchView, name: Seq<char>, version: Seq<char>) -> BatchView {
    BatchView { versions: b.versions.insert(name, version), ..b }
}

/// A run after a failure that runs no hooks.
pub open spec fn recorded_failure(
    b: BatchView,
    step: Seq<char>,
    e: ErrView,
    class: ClassView,
    ts: i64,
) -> BatchView {
    with_failure(
        with_failed(
            failed_partitions_of(failed_step(b, step, e.1, Some(class), ts), step, e.1, ts),
            step,
        ),
        step,
        e,
    )
}

/// The reason for which a key is marked as failed; the last mark counts.
pub open spec fn mark_for(marks: Seq<(KeyView, Seq<char>)>, k: KeyView) -> Option<Seq<char>>
    decreases marks.len(),
{
    if marks.len() == 0 {
        None
    } else if marks.last().0 == k {
        Some(marks.last().1)
    } else {
        mark_for(marks.drop_last(), k)
    }
}

/// The marks of a step.
pub open spec fn marks_of(b: BatchView, step: Seq<char>) -> Seq<(KeyView, Seq<char>)> {
    if b.marks.dom().contains(step) {
        b.marks[step]
    } else {
        Seq::empty()
    }
}

/// The members of a key that no mark names.
pub open spec fn unmarked(members: Seq<KeyView>, marks: Seq<(KeyView, Seq<char>)>) -> Seq<KeyView>
    decreases members.len(),
{
    if members.len() == 0 {
        members
    } else if mark_for(marks, members.last()) is Some {
        unmarked(members.drop_last(), marks)
    } else {
        unmarked(members.drop_last(), marks).push(members.last())
    }
}

/// A run after each marked member of a key was recorded as failed.
pub open spec fn failed_marked(
    b: BatchView,
    step: Seq<char>,
    members: Seq<KeyView>,
    marks: Seq<(KeyView, Seq<char>)>,
    ts: i64,
) -> BatchView
    decreases members.len(),
{
    if members.len() == 0 {
        b
    } else {
        let before = failed_marked(b, step, members.drop_last(), marks, ts);
        match mark_for(marks, members.last()) {
            Some(error) => with_event(
                before,
                partition_failure(before, step, members.last(), error, ts),
            ),
            None => before,
        }
    }
}

/// A run after a record was written once for each key of a list.
pub open spec fn event_for_each(b: BatchView, keys: Seq<KeyView>, e: EventView) -> BatchView
    decreases keys.len(),
{
    if keys.len() == 0 {
        b
    } else {
        with_event(
            event_for_each(b, keys.drop_last(), e),
            EventView { partition: Some(keys.last()), ..e },
        )
    }
}

/// A run after a record of a step: once where the run is unpartitioned; else the
/// marked members of its key are recorded as failed, and the record is written once
/// for each of the others.
pub open spec fn keyed_event(b: BatchView, step: Seq<char>, e: EventView) -> BatchView {
    match b.partition {
        Some(pk) => event_for_each(
            failed_marked(b, step, members_of(pk), marks_of(b, step), e.ts),
            unmarked(members_of(pk), marks_of(b, step)),
            e,
        ),
        None => with_event(b, e),
    }
}

/// Every member of a key is recorded once: as failed where a mark names it, else
/// with the step's own record.
pub proof fn lemma_members_once(members: Seq<KeyView>, marks: Seq<(KeyView, Seq<char>)>)
    ensures
        forall|k: KeyView| #[trigger]
            unmarked(members, marks).contains(k) <==> members.contains(k) && mark_for(marks, k)
                is None,
    decreases members.len(),
{
    if members.len() > 0 {
        let w = members.drop_last();
        let u = unmarked(w, marks);
        let r = unmarked(members, marks);
        lemma_members_once(w, marks);
        assert forall|k: KeyView| #[trigger] r.contains(k) <==> members.contains(k) && mark_for(
            marks,
            k,
        ) is None by {
            if r.contains(k) {
                let i = choose|i: int| 0 <= i < r.len() && r[i] == k;
                if i < u.len() {
                    assert(u[i] == k);
                    assert(u.contains(k));
                    let j = choose|j: int| 0 <= j < w.len() && w[j] == k;
                    assert(members[j] == k);
                } else {
                    assert(members[members.len() - 1] == k);
                }
            }
            if members.contains(k) && mark_for(marks, k) is None {
                let j = choose|j: int| 0 <= j < members.len() && members[j] == k;
                if j < w.len() {
                    assert(w[j] == k);
                    assert(w.contains(k));
                    assert(u.contains(k));
                    let i = choose|i: int| 0 <= i < u.len() && u[i] == k;
                    assert(r[i] == k);
                } else {
                    assert(r[u.len() as int] == k);
                }
            }
        }
    }
}

/// Whether a step failed here stays untouched by records.
pub proof fn lemma_keyed_event_frame(b: BatchView, step: Seq<char>, e: EventView)
    ensures
        keyed_event(b, step, e) == (BatchView {
            effects: keyed_event(b, step, e).effects,
            ..b
        }),
{
    if let Some(pk) = b.partition {
        lemma_failed_marked_frame(b, step, members_of(pk), marks_of(b, step), e.ts);
        lemma_for_each_frame(
            failed_marked(b, step, members_of(pk), marks_of(b, step), e.ts),
            unmarked(members_of(pk), marks_of(b, step)),
            e,
        );
    }
}

proof fn lemma_failed_marked_frame(
    b: BatchView,
    step: Seq<char>,
    members: Seq<KeyView>,
    marks: Seq<(KeyView, Seq<char>)>,
    ts: i64,
)
    ensures
        failed_marked(b, step, members, marks, ts) == (BatchView {
            effects: failed_marked(b, step, members, marks, ts).effects,
            ..b
        }),
    decreases members.len(),
{
    if members.len() > 0 {
        lemma_failed_marked_frame(b, step, members.drop_last(), marks, ts);
    }
}

proof fn lemma_for_each_frame(b: BatchView, keys: Seq<KeyView>, e: EventView)
    ensures
        event_for_each(b, keys, e) == (BatchView {
            effects: event_for_each(b, keys, e).effects,
            ..b
        }),
    decreases keys.len(),
{
    if keys.len() > 0 {
        lemma_for_each_frame(b, keys.drop_last(), e);
    }
}

impl EventType {
    pub fn copy(&self) -> (r: Self)
        ensures
            r@ == self@,
    {
        match self {
            EventType::StepStart => EventType::StepStart,
            EventType::StepSuccess => EventType::StepSuccess,
            EventType::StepFailure { error, classified } => EventType::StepFailure {
                error: error.clone(),
                classified: match classified {
                    Some(c) => Some(c.copy()),
                    None => None,
                },
            },
            EventType::StepRetry { attempt, reason, delay_ms, next_compute } => EventType::StepRetry {
                attempt: *attempt,
                reason: *reason,
                delay_ms: *delay_ms,
                next_compute: crate::executor::outputs::copy_opt(next_compute),
            },
            EventType::LogOutput => EventType::LogOutput,
            EventType::Materialization { data_version } => EventType::Materialization {
                data_version: crate::executor::outputs::copy_opt(data_version),
            },
            EventType::Observation { data_version } => EventType::Observation {
                data_version: crate::executor::outputs::copy_opt(data_version),
            },
            EventType::Deletion { action } => EventType::Deletion { action: action.clone() },
            EventType::ActionCompleted { action } => EventType::ActionCompleted {
                action: action.clone(),
            },
            EventType::StepSlotClaimed => EventType::StepSlotClaimed,
            EventType::StepSlotWaiting => EventType::StepSlotWaiting,
            EventType::StepSlotRenewed => EventType::StepSlotRenewed,
            EventType::StepSlotReleased => EventType::StepSlotReleased,
        }
    }
}

fn find_mark(marks: &Vec<Mark>, k: &PyPartitionKey) -> (r: Option<String>)
    requires
        marks_wf(marks@),
        k.wf(),
    ensures
        opt_text(r) == mark_for(marks_view(marks@), k@),
{
    let ghost m = marks_view(marks@);
    let mut i: usize = marks.len();
    proof {
        assert(m.take(i as int) =~= m);
    }
    while i > 0
        invariant
            marks_wf(marks@),
            k.wf(),
            m == marks_view(marks@),
            i <= marks@.len(),
            mark_for(m, k@) == mark_for(m.take(i as int), k@),
        decreases i,
    {
        proof {
            assert(m.take(i as int).drop_last() =~= m.take(i - 1));
            assert(m.take(i as int).last() == m[i - 1]);
            assert(marks@[i - 1].0.wf());
        }
        if marks[i - 1].0.same(k) {
            return Some(marks[i - 1].1.clone());
        }
        i -= 1;
    }
    None
}

impl Batch {
    pub open spec fn wf(&self) -> bool {
        &&& self.partition_key matches Some(k) ==> k.wf()
        &&& self.data_versions.wf()
        &&& self.mapped_instance_keys.wf()
        &&& self.failed_partitions.wf()
        &&& self.step_dynamic_keys.wf()
        &&& forall|n: Seq<char>| #[trigger]
            self.failed_partitions@.dom().contains(n) ==> marks_wf(self.failed_partitions@[n]@)
    }

    /// The progress of a run that has not begun.
    pub fn new(
        origin: Origin,
        partition_key: Option<PyPartitionKey>,
        is_action: bool,
        own_class: Classified,
    ) -> (r: Self)
        requires
            partition_key matches Some(k) ==> k.wf(),
        ensures
            r.wf(),
            r@ == (BatchView {
                origin: origin@,
                partition: key_or_none(partition_key),
                is_action,
                own_class: own_class@,
                versions: Map::empty(),
                failed: Set::empty(),
                started: Set::empty(),
                mapped: Map::empty(),
                marks: Map::empty(),
                dynamic: Map::empty(),
                effects: Seq::empty(),
                failures: Seq::empty(),
            }),
    {
        let r = Batch {
            origin,
            partition_key,
            is_action,
            own_class,
            data_versions: NameMap::new(),
            failed_names: NameSet::new(),
            graph_started: NameSet::new(),
            mapped_instance_keys: NameMap::new(),
            failed_partitions: NameMap::new(),
            step_dynamic_keys: NameMap::new(),
            effects: Vec::new(),
            failures: Vec::new(),
        };
        proof {
            assert(text_map(r.data_versions@) =~= Map::empty());
            assert(list_map(r.mapped_instance_keys@) =~= Map::empty());
            assert(list_map(r.step_dynamic_keys@) =~= Map::empty());
            assert(mark_map(r.failed_partitions@) =~= Map::empty());
            assert(effects_view(r.effects@) =~= Seq::empty());
            assert(failures_view(r.failures@) =~= Seq::empty());
        }
        r
    }

    /// Adds an effect.
    pub fn effect(&mut self, e: Effect)
        requires
            old(self).wf(),
        ensures
            final(self).wf(),
            final(self)@ == with_effect(old(self)@, e@),
    {
        let ghost before = effects_view(self.effects@);
        let ghost ev = e@;
        self.effects.push(e);
        proof {
            assert(effects_view(self.effects@) =~= before.push(ev));
        }
    }

    /// Writes a record.
    pub fn event(&mut self, e: EventRecord)
        requires
            old(self).wf(),
        ensures
            final(self).wf(),
            final(self)@ == with_event(old(self)@, e@),
    {
        self.effect(Effect::Event(e));
    }

    /// Records the data version of a name.
    pub fn record_data_version(&mut self, name: String, version: String)
        requires
            old(self).wf(),
        ensures
            final(self).wf(),
            final(self)@ == with_version(old(self)@, name@, version@),
    {
        let ghost before = self.data_versions@;
        let ghost n = name@;
        let ghost v = version;
        self.data_versions.insert(name, version);
        proof {
            assert(text_map(self.data_versions@) =~= text_map(before).insert(n, v@));
        }
    }

    /// Marks a name as failed.
    pub fn mark_failed(&mut self, name: String)
        requires
            old(self).wf(),
        ensures
            final(self).wf(),
            final(self)@ == with_failed(old(self)@, name@),
    {
        let _ = self.failed_names.insert(name);
    }

    /// Whether a name has failed.
    pub fn was_failed(&self, name: &str) -> (r: bool)
        ensures
            r == self@.failed.contains(name@),
    {
        self.failed_names.contains(name)
    }

    /// Marks a graph asset as started. Says whether this is the first time.
    pub fn mark_graph_started(&mut self, name: String) -> (r: bool)
        requires
            old(self).wf(),
        ensures
            final(self).wf(),
            final(self)@ == (BatchView {
                started: old(self)@.started.insert(name@),
                ..old(self)@
            }),
            r == !old(self)@.started.contains(name@),
    {
        self.graph_started.insert(name)
    }

    /// Records the keys of the instances of a mapped step.
    pub fn record_mapped_keys(&mut self, name: String, keys: Vec<String>)
        requires
            old(self).wf(),
        ensures
            final(self).wf(),
            final(self)@ == (BatchView {
                mapped: old(self)@.mapped.insert(name@, texts(keys@)),
                ..old(self)@
            }),
    {
        let ghost before = self.mapped_instance_keys@;
        let ghost n = name@;
        let ghost v = keys;
        self.mapped_instance_keys.insert(name, keys);
        proof {
            assert(list_map(self.mapped_instance_keys@) =~= list_map(before).insert(
                n,
                texts(v@),
            ));
        }
    }

    /// Records the mapping keys that a step produced.
    pub fn record_dynamic_keys(&mut self, name: String, keys: Vec<String>)
        requires
            old(self).wf(),
        ensures
            final(self).wf(),
            final(self)@ == (BatchView {
                dynamic: old(self)@.dynamic.insert(name@, texts(keys@)),
                ..old(self)@
            }),
    {
        let ghost before = self.step_dynamic_keys@;
        let ghost n = name@;
        let ghost v = keys;
        self.step_dynamic_keys.insert(name, keys);
        proof {
            assert(list_map(self.step_dynamic_keys@) =~= list_map(before).insert(n, texts(v@)));
        }
    }

    /// Reports a failure.
    pub fn push_failure(&mut self, name: String, e: StepError)
        requires
            old(self).wf(),
        ensures
            final(self).wf(),
            final(self)@ == with_failure(old(self)@, name@, e@),
    {
        let ghost before = failures_view(self.failures@);
        let ghost f = (name@, e@);
        self.failures.push((name, e));
        proof {
            assert(failures_view(self.failures@) =~= before.push(f));
        }
    }

    /// Records the start of a step.
    pub fn emit_start(&mut self, step_name: &str, ts: i64)
        requires
            old(self).wf(),
        ensures
            final(self).wf(),
            final(self)@ == started_step(old(self)@, step_name@, ts),
    {
        let e = bare_event(EventType::StepStart, &self.origin, step_name, ts);
        self.event(e);
    }

    /// Records the success of a step.
    pub fn emit_success(&mut self, step_name: &str, ts: i64)
        requires
            old(self).wf(),
        ensures
            final(self).wf(),
            final(self)@ == succeeded_step(old(self)@, step_name@, ts),
    {
        let e = bare_event(EventType::StepSuccess, &self.origin, step_name, ts);
        self.event(e);
    }

    /// Records the failure of a step: no hooks, no marking.
    pub fn emit_step_failure(
        &mut self,
        step_name: &str,
        msg: &str,
        classified: Option<&Classified>,
        ts: i64,
    )
        requires
            old(self).wf(),
        ensures
            final(self).wf(),
            final(self)@ == failed_step(
                old(self)@,
                step_name@,
                msg@,
                match classified {
                    Some(c) => Some(c@),
                    None => None,
                },
                ts,
            ),
    {
        let class = match classified {
            Some(c) => Some(c.copy()),
            None => None,
        };
        let e = bare_event(
            EventType::StepFailure { error: msg.to_owned(), classified: class },
            &self.origin,
            step_name,
            ts,
        );
        self.event(e);
    }

    /// Records that a step is tried again.
    pub fn emit_step_retry(
        &mut self,
        step_name: &str,
        attempt: u32,
        reason: FailureReason,
        delay_ms: u64,
        ts: i64,
    )
        requires
            old(self).wf(),
        ensures
            final(self).wf(),
            final(self)@ == with_event(
                old(self)@,
                plain_event(
                    TypeView::StepRetry(attempt, reason, delay_ms, None),
                    old(self)@.origin,
                    step_name@,
                    ts,
                ),
            ),
    {
        let e = bare_event(
            EventType::StepRetry { attempt, reason, delay_ms, next_compute: None },
            &self.origin,
            step_name,
            ts,
        );
        self.event(e);
    }

    fn partition_failed(&mut self, step_name: &str, key: &PyPartitionKey, error: &str, ts: i64)
        requires
            old(self).wf(),
        ensures
            final(self).wf(),
            final(self).partition_key == old(self).partition_key,
            final(self).failed_partitions == old(self).failed_partitions,
            final(self)@ == with_event(
                old(self)@,
                partition_failure(old(self)@, step_name@, key@, error@, ts),
            ),
    {
        let mut e = bare_event(
            EventType::StepFailure { error: error.to_owned(), classified: None },
            &self.origin,
            step_name,
            ts,
        );
        e.partition_key = Some(key.copy());
        let ghost before = effects_view(self.effects@);
        let ghost ev = e@;
        self.effects.push(Effect::Event(e));
        proof {
            assert(effects_view(self.effects@) =~= before.push(EffectView::Event(ev)));
        }
    }

    /// A failed partitioned step materialized none of its partitions, so the whole
    /// key is recorded as failed.
    pub fn emit_partition_failures(&mut self, step_name: &str, error: &str, ts: i64)
        requires
            old(self).wf(),
        ensures
            final(self).wf(),
            final(self)@ == failed_partitions_of(old(self)@, step_name@, error@, ts),
    {
        if self.is_action {
            return;
        }
        let key = match &self.partition_key {
            Some(k) => k.copy(),
            None => {
                return;
            },
        };
        self.partition_failed(step_name, &key, error, ts);
    }

    /// The members of a batched key that the step completed; those that a mark names
    /// are recorded as failed.
    fn surviving_members(&mut self, step_name: &str, members: &Vec<PyPartitionKey>, ts: i64) -> (r:
        Vec<PyPartitionKey>)
        requires
            old(self).wf(),
            forall|i: int| 0 <= i < members@.len() ==> (#[trigger] members@[i]).wf(),
        ensures
            final(self).wf(),
            final(self)@ == failed_marked(
                old(self)@,
                step_name@,
                keys_view(members@),
                marks_of(old(self)@, step_name@),
                ts,
            ),
            keys_view(r@) == unmarked(keys_view(members@), marks_of(old(self)@, step_name@)),
    {
        let ghost b0 = self@;
        let ghost ks = keys_view(members@);
        let ghost marks = marks_of(b0, step_name@);
        let mut out: Vec<PyPartitionKey> = Vec::new();
        let mut i: usize = 0;
        proof {
            lemma_keys_view(members@);
            assert(ks.take(0) =~= Seq::empty());
        }
        while i < members.len()
            invariant
                self.wf(),
                self.failed_partitions == old(self).failed_partitions,
                self.partition_key == old(self).partition_key,
                b0 == old(self)@,
                ks == keys_view(members@),
                ks.len() == members@.len(),
                marks == marks_of(b0, step_name@),
                forall|j: int| 0 <= j < members@.len() ==> (#[trigger] members@[j]).wf(),
                forall|j: int|
                    0 <= j < members@.len() ==> #[trigger] ks[j] == key_view(members@[j]),
                i <= members@.len(),
                self@ == failed_marked(b0, step_name@, ks.take(i as int), marks, ts),
                keys_view(out@) == unmarked(ks.take(i as int), marks),
            decreases members@.len() - i,
        {
            proof {
                assert(ks.take(i + 1).drop_last() =~= ks.take(i as int));
                assert(ks.take(i + 1).last() == ks[i as int]);
            }
            let mark = match self.failed_partitions.get(step_name) {
                Some(m) => {
                    proof {
                        assert(mark_map(old(self).failed_partitions@)[step_name@] == marks_view(
                            m@,
                        ));
                    }
                    find_mark(m, &members[i])
                },
                None => None,
            };
            match mark {
                Some(error) => {
                    self.partition_failed(step_name, &members[i], error.as_str(), ts);
                },
                None => {
                    let ghost prev = out@;
                    out.push(members[i].copy());
                    proof {
                        assert(out@.drop_last() =~= prev);
                    }
                },
            }
            i += 1;
        }
        proof {
            assert(ks.take(i as int) =~= ks);
        }
        out
    }

    /// Writes a record of a step, once for each member of the key of the run that no
    /// mark names.
    pub fn emit_keyed(
        &mut self,
        step_name: &str,
        event_type: EventType,
        metadata: &Vec<(String, String)>,
        inputs: &Vec<(String, String)>,
        ts: i64,
    )
        requires
            old(self).wf(),
        ensures
            final(self).wf(),
            final(self)@ == keyed_event(
                old(self)@,
                step_name@,
                (EventView {
                    metadata: pairs_view(metadata@),
                    inputs: pairs_view(inputs@),
                    ..plain_event(event_type@, old(self)@.origin, step_name@, ts)
                }),
            ),
    {
        let ghost b0 = self@;
        let ghost template = EventView {
            metadata: pairs_view(metadata@),
            inputs: pairs_view(inputs@),
            ..plain_event(event_type@, b0.origin, step_name@, ts)
        };
        let members = match &self.partition_key {
            Some(pk) => pk.members(),
            None => {
                let mut e = step_event(
                    event_type,
                    &self.origin,
                    step_name,
                    copy_pairs(metadata),
                    ts,
                );
                e.input_data_versions = copy_pairs(inputs);
                self.event(e);
                return;
            },
        };
        let survivors = self.surviving_members(step_name, &members, ts);
        let ghost b1 = self@;
        let ghost ks = keys_view(survivors@);
        let mut i: usize = 0;
        proof {
            lemma_keys_view(survivors@);
            lemma_failed_marked_frame(
                b0,
                step_name@,
                keys_view(members@),
                marks_of(b0, step_name@),
                ts,
            );
            assert(ks.take(0) =~= Seq::empty());
        }
        while i < survivors.len()
            invariant
                self.wf(),
                b1.origin == b0.origin,
                b0 == old(self)@,
                ks == keys_view(survivors@),
                ks.len() == survivors@.len(),
                forall|j: int|
                    0 <= j < survivors@.len() ==> #[trigger] ks[j] == key_view(survivors@[j]),
                i <= survivors@.len(),
                template == (EventView {
                    metadata: pairs_view(metadata@),
                    inputs: pairs_view(inputs@),
                    ..plain_event(event_type@, b0.origin, step_name@, ts)
                }),
                self@ == event_for_each(b1, ks.take(i as int), template),
            decreases survivors@.len() - i,
        {
            proof {
                assert(ks.take(i + 1).drop_last() =~= ks.take(i as int));
                assert(ks.take(i + 1).last() == ks[i as int]);
                lemma_for_each_frame(b1, ks.take(i as int), template);
            }
            let mut e = step_event(
                event_type.copy(),
                &self.origin,
                step_name,
                copy_pairs(metadata),
                ts,
            );
            e.input_data_versions = copy_pairs(inputs);
            e.partition_key = Some(survivors[i].copy());
            self.event(e);
            i += 1;
        }
        proof {
            assert(ks.take(i as int) =~= ks);
        }
    }

    /// Records captured logs.
    pub fn emit_captured_logs(&mut self, step_name: &str, logs: Option<&CapturedLogs>, ts: i64)
        requires
            old(self).wf(),
        ensures
            final(self).wf(),
            final(self)@ == logged(
                old(self)@,
                step_name@,
                match logs {
                    Some(l) => Some(l@),
                    None => None,
                },
                ts,
            ),
    {
        if let Some(l) = logs {
            if let Some(e) = emit_log_output(l, &self.origin, step_name, ts) {
                self.event(e);
            }
        }
    }

    /// Records a step failure without hooks: the record, the mark, the failure.
    pub fn record_failure_no_hooks(
        &mut self,
        step_name: &str,
        error: StepError,
        classified: &Classified,
        ts: i64,
    )
        requires
            old(self).wf(),
        ensures
            final(self).wf(),
            final(self)@ == recorded_failure(old(self)@, step_name@, error@, classified@, ts),
    {
        let msg = error.text();
        self.emit_step_failure(step_name, msg.as_str(), Some(classified), ts);
        self.emit_partition_failures(step_name, msg.as_str(), ts);
        self.mark_failed(step_name.to_owned());
        self.push_failure(step_name.to_owned(), error);
    }

    /// Records a failure that was found here.
    pub fn record_own_failure(&mut self, step_name: &str, message: String, ts: i64)
        requires
            old(self).wf(),
        ensures
            final(self).wf(),
            final(self)@ == recorded_failure(
                old(self)@,
                step_name@,
                execution_error(message@),
                old(self)@.own_class,
                ts,
            ),
    {
        let class = self.own_class.copy();
        self.record_failure_no_hooks(step_name, StepError::execution(message), &class, ts);
    }
}

/// A run after captured logs were recorded.
pub open spec fn logged(
    b: BatchView,
    step: Seq<char>,
    logs: Option<LogsView>,
    ts: i64,
) -> BatchView {
    match logs {
        Some(l) => match log_event(l, b.origin, step, ts) {
            Some(e) => with_event(b, e),
            None => b,
        },
        None => b,
    }
}

} // verus!
