//! How a step runs in a pod of its own, and how its attempts are followed.
use vstd::prelude::*;
use vstd::string::*;
use crate::errors::{Fault, FaultKind};
use crate::executor::batch::{
    execution_error, recorded_failure, with_failed, with_failure, Batch, BatchView, StepError,
};
use crate::executor::events::{
    bare_event, plain_event, EventRecord, EventType, FailureReason, Origin, TypeView,
};
use crate::executor::parallel::HandlerKind;
use crate::partitions::grid::opt_text;
use crate::text::{copy_texts, same_text, say3, texts};

verus! {

/// How a container ended.
#[derive(Debug)]
pub struct Terminated {
    pub reason: Option<String>,
    pub exit_code: i32,
}

/// A container of a pod: how it ended, and how it ended before that.
#[derive(Debug)]
pub struct Container {
    pub state: Option<Terminated>,
    pub last_state: Option<Terminated>,
}

/// How a container ended last.
pub open spec fn ended_as(c: Container) -> Option<Terminated> {
    match c.state {
        Some(t) => Some(t),
        None => c.last_state,
    }
}

/// What the end of a container says of the failure of its pod.
pub open spec fn end_reason(t: Terminated) -> Option<FailureReason> {
    if opt_text(t.reason) == Some("OOMKilled"@) || t.exit_code == 137 {
        Some(FailureReason::OutOfMemory)
    } else if opt_text(t.reason) == Some("DeadlineExceeded"@) {
        Some(FailureReason::Timeout)
    } else if t.exit_code != 0 {
        Some(FailureReason::Error)
    } else {
        None
    }
}

/// What a container says of the failure of its pod.
pub open spec fn container_reason(c: Container) -> Option<FailureReason> {
    match ended_as(c) {
        Some(t) => end_reason(t),
        None => None,
    }
}

/// The reason of a failure: what the first container says that says anything. Where
/// none does, the pod itself was lost.
pub open spec fn pod_reason(s: Seq<Container>) -> FailureReason
    decreases s.len(),
{
    if s.len() == 0 {
        FailureReason::Infrastructure
    } else {
        match container_reason(s[0]) {
            Some(r) => r,
            None => pod_reason(s.drop_first()),
        }
    }
}

fn reason_is(r: &Option<String>, want: &str) -> (b: bool)
    ensures
        b == (opt_text(*r) == Some(want@)),
{
    match r {
        Some(s) => same_text(s.as_str(), want),
        None => false,
    }
}

fn reason_of_end(t: &Terminated) -> (r: Option<FailureReason>)
    ensures
        r == end_reason(*t),
{
    if reason_is(&t.reason, "OOMKilled") || t.exit_code == 137 {
        Some(FailureReason::OutOfMemory)
    } else if reason_is(&t.reason, "DeadlineExceeded") {
        Some(FailureReason::Timeout)
    } else if t.exit_code != 0 {
        Some(FailureReason::Error)
    } else {
        None
    }
}

/// The reason for which a step pod failed, from the containers of its pods in order;
/// none could be listed where the cluster did not answer.
pub fn classify_failed_pod(containers: Option<&Vec<Container>>) -> (r: FailureReason)
    ensures
        r == match containers {
            Some(v) => pod_reason(v@),
            None => FailureReason::Infrastructure,
        },
{
    let v = match containers {
        Some(v) => v,
        None => {
            return FailureReason::Infrastructure;
        },
    };
    let ghost s = v@;
    let mut i: usize = 0;
    proof {
        assert(s.skip(0) =~= s);
    }
    while i < v.len()
        invariant
            containers == Some(v),
            s == v@,
            i <= s.len(),
            pod_reason(s) == pod_reason(s.skip(i as int)),
        decreases s.len() - i,
    {
        proof {
            assert(s.skip(i as int)[0] == s[i as int]);
            assert(s.skip(i as int).drop_first() =~= s.skip(i + 1));
        }
        let found = match &v[i].state {
            Some(t) => reason_of_end(t),
            None => match &v[i].last_state {
                Some(t) => reason_of_end(t),
                None => None,
            },
        };
        if let Some(r) = found {
            return r;
        }
        i += 1;
    }
    FailureReason::Infrastructure
}

/// A record of a step, as far as following its attempts goes.
#[derive(Debug)]
pub enum StepEvent {
    Success,
    /// A failure: of one partition where `keyed` holds, with the reason and the class
    /// names that the pod recorded.
    Failure { keyed: bool, reason: Option<FailureReason>, exc_types: Vec<String> },
    Other,
}

/// Whether some record is a success.
pub open spec fn some_success(s: Seq<StepEvent>) -> bool {
    exists|i: int| 0 <= i < s.len() && (#[trigger] s[i]) is Success
}

/// Whether a record is the failure of the step itself.
pub open spec fn is_step_failure(e: StepEvent) -> bool {
    e matches StepEvent::Failure { keyed, .. } && !keyed
}

/// How many records are failures of the step itself.
pub open spec fn step_failures(s: Seq<StepEvent>) -> nat
    decreases s.len(),
{
    if s.len() == 0 {
        0
    } else {
        step_failures(s.drop_last()) + if is_step_failure(s.last()) {
            1nat
        } else {
            0nat
        }
    }
}

/// What the last failure of the step itself says: an ordinary error unless the pod
/// recorded a reason.
pub open spec fn last_failure(s: Seq<StepEvent>) -> (FailureReason, Seq<Seq<char>>)
    decreases s.len(),
{
    if s.len() == 0 {
        (FailureReason::Error, Seq::empty())
    } else if is_step_failure(s.last()) {
        match s.last() {
            StepEvent::Failure { reason, exc_types, .. } => (
                match reason {
                    Some(r) => r,
                    None => FailureReason::Error,
                },
                texts(exc_types@),
            ),
            _ => (FailureReason::Error, Seq::empty()),
        }
    } else {
        last_failure(s.drop_last())
    }
}

/// How an attempt ended.
#[derive(Debug)]
pub enum PollOutcome {
    Success,
    Failed { reason: FailureReason, exc_types: Vec<String> },
    Cancelled,
}

/// What an outcome says.
pub enum OutcomeView {
    Success,
    Failed(FailureReason, Seq<Seq<char>>),
    Cancelled,
}

impl View for PollOutcome {
    type V = OutcomeView;

    open spec fn view(&self) -> OutcomeView {
        match *self {
            PollOutcome::Success => OutcomeView::Success,
            PollOutcome::Failed { reason, exc_types } => OutcomeView::Failed(
                reason,
                texts(exc_types@),
            ),
            PollOutcome::Cancelled => OutcomeView::Cancelled,
        }
    }
}

/// How an attempt ended, as its records tell: a success settles it, a failure beyond
/// those that were there before it began is its own.
pub open spec fn told_by_events(s: Seq<StepEvent>, baseline: int) -> Option<OutcomeView> {
    if some_success(s) {
        Some(OutcomeView::Success)
    } else if step_failures(s) > baseline {
        Some(OutcomeView::Failed(last_failure(s).0, last_failure(s).1))
    } else {
        None
    }
}

/// How many failures of the step itself there are among records.
pub fn count_step_failures(events: &Vec<StepEvent>) -> (r: usize)
    ensures
        r == step_failures(events@),
        r <= events@.len(),
{
    let ghost s = events@;
    let mut n: usize = 0;
    let mut i: usize = 0;
    proof {
        assert(s.take(0) =~= Seq::empty());
    }
    while i < events.len()
        invariant
            s == events@,
            i <= s.len(),
            n <= i,
            n == step_failures(s.take(i as int)),
        decreases s.len() - i,
    {
        proof {
            assert(s.take(i + 1).drop_last() =~= s.take(i as int));
            assert(s.take(i + 1).last() == s[i as int]);
        }
        match &events[i] {
            StepEvent::Failure { keyed, .. } => {
                if !*keyed {
                    n += 1;
                }
            },
            _ => {},
        }
        i += 1;
    }
    proof {
        assert(s.take(i as int) =~= s);
    }
    n
}

fn find_last_failure(events: &Vec<StepEvent>) -> (r: (FailureReason, Vec<String>))
    ensures
        (r.0, texts(r.1@)) == last_failure(events@),
{
    let ghost s = events@;
    let mut i: usize = events.len();
    proof {
        assert(s.take(i as int) =~= s);
    }
    while i > 0
        invariant
            s == events@,
            i <= s.len(),
            last_failure(s) == last_failure(s.take(i as int)),
        decreases i,
    {
        proof {
            assert(s.take(i as int).drop_last() =~= s.take(i - 1));
            assert(s.take(i as int).last() == s[i - 1]);
        }
        match &events[i - 1] {
            StepEvent::Failure { keyed, reason, exc_types } => {
                if !*keyed {
                    let why = match reason {
                        Some(r) => *r,
                        None => FailureReason::Error,
                    };
                    return (why, copy_texts(exc_types));
                }
            },
            _ => {},
        }
        i -= 1;
    }
    let none: Vec<String> = Vec::new();
    proof {
        assert(texts(none@) =~= Seq::empty());
    }
    (FailureReason::Error, none)
}

/// How an attempt ended, as its records tell.
pub fn outcome_of_events(events: &Vec<StepEvent>, baseline: usize) -> (r: Option<PollOutcome>)
    ensures
        match r {
            Some(o) => told_by_events(events@, baseline as int) == Some(o@),
            None => told_by_events(events@, baseline as int) is None,
        },
{
    let mut i: usize = 0;
    while i < events.len()
        invariant
            i <= events@.len(),
            forall|j: int| 0 <= j < i ==> !((#[trigger] events@[j]) is Success),
        decreases events@.len() - i,
    {
        match &events[i] {
            StepEvent::Success => {
                proof {
                    assert(events@[i as int] is Success);
                }
                return Some(PollOutcome::Success);
            },
            _ => {},
        }
        i += 1;
    }
    if count_step_failures(events) > baseline {
        let (reason, exc_types) = find_last_failure(events);
        return Some(PollOutcome::Failed { reason, exc_types });
    }
    None
}

/// How many polls a failed job is given to record its end.
pub const EVENT_GRACE_CYCLES: u32 = 3;

/// The polling of an attempt: how often its job was seen to have failed.
#[derive(Debug)]
pub struct AttemptPoll {
    pub baseline: usize,
    pub job_failed_cycles: u32,
}

/// What follows from a look at the job.
#[derive(Clone, Copy, PartialEq, Eq, Structural, Debug)]
pub enum JobLook {
    /// Poll again.
    Again,
    /// The job has failed without a record: classify it from its pods.
    Classify,
}

/// How an attempt has ended, as far as its records and the run tell.
pub open spec fn attempt_told(
    events: Option<&Vec<StepEvent>>,
    baseline: int,
    cancelled: Option<bool>,
) -> Option<OutcomeView> {
    let told = match events {
        Some(v) => told_by_events(v@, baseline),
        None => None,
    };
    match told {
        Some(o) => Some(o),
        None => if cancelled == Some(true) {
            Some(OutcomeView::Cancelled)
        } else {
            None
        },
    }
}

impl AttemptPoll {
    pub fn new(baseline: usize) -> (r: Self)
        ensures
            r.baseline == baseline,
            r.job_failed_cycles == 0,
    {
        AttemptPoll { baseline, job_failed_cycles: 0 }
    }

    /// How the attempt has ended, as far as its records and the run tell: by its
    /// records, where they could be read and tell it, else by a cancellation. Whether
    /// the run was cancelled counts only where it is known.
    pub fn on_records(
        &self,
        events: Option<&Vec<StepEvent>>,
        cancelled: Option<bool>,
    ) -> (r: Option<PollOutcome>)
        ensures
            match r {
                Some(o) => attempt_told(events, self.baseline as int, cancelled) == Some(o@),
                None => attempt_told(events, self.baseline as int, cancelled) is None,
            },
    {
        if let Some(v) = events {
            if let Some(o) = outcome_of_events(v, self.baseline) {
                return Some(o);
            }
        }
        match cancelled {
            Some(true) => Some(PollOutcome::Cancelled),
            _ => None,
        }
    }

    /// What follows from a look at the job: `failed` says whether it has failed,
    /// where it is known. The failure counts only once it has been seen often enough
    /// for its record to have come.
    pub fn on_job(&mut self, failed: Option<bool>) -> (r: JobLook)
        requires
            old(self).job_failed_cycles < EVENT_GRACE_CYCLES,
        ensures
            final(self).baseline == old(self).baseline,
            final(self).job_failed_cycles == if failed == Some(true) {
                (old(self).job_failed_cycles + 1) as u32
            } else {
                old(self).job_failed_cycles
            },
            r == if final(self).job_failed_cycles >= EVENT_GRACE_CYCLES {
                JobLook::Classify
            } else {
                JobLook::Again
            },
    {
        match failed {
            Some(true) => {
                self.job_failed_cycles = self.job_failed_cycles + 1;
                if self.job_failed_cycles >= EVENT_GRACE_CYCLES {
                    JobLook::Classify
                } else {
                    JobLook::Again
                }
            },
            _ => JobLook::Again,
        }
    }
}

/// The resources of a pod; an axis may be left open.
#[derive(Debug)]
pub struct Compute {
    pub cpu: Option<String>,
    pub memory: Option<String>,
    pub gpu: Option<String>,
}

/// What resources say.
pub struct ComputeView {
    pub cpu: Option<Seq<char>>,
    pub memory: Option<Seq<char>>,
    pub gpu: Option<Seq<char>>,
}

impl View for Compute {
    type V = ComputeView;

    open spec fn view(&self) -> ComputeView {
        ComputeView {
            cpu: opt_text(self.cpu),
            memory: opt_text(self.memory),
            gpu: opt_text(self.gpu),
        }
    }
}

/// The resources of the first pod of a step: those of its asset, with the processors and
/// the memory of the workers where the asset leaves them open.
pub fn first_compute(own: Option<Compute>, worker_cpu: String, worker_memory: String) -> (r: Compute)
    ensures
        r@ == (ComputeView {
            cpu: match own {
                Some(c) if c.cpu is Some => opt_text(c.cpu),
                _ => Some(worker_cpu@),
            },
            memory: match own {
                Some(c) if c.memory is Some => opt_text(c.memory),
                _ => Some(worker_memory@),
            },
            gpu: match own {
                Some(c) => opt_text(c.gpu),
                None => None,
            },
        }),
{
    match own {
        Some(c) => Compute {
            cpu: match c.cpu {
                Some(t) => Some(t),
                None => Some(worker_cpu),
            },
            memory: match c.memory {
                Some(t) => Some(t),
                None => Some(worker_memory),
            },
            gpu: c.gpu,
        },
        None => Compute { cpu: Some(worker_cpu), memory: Some(worker_memory), gpu: None },
    }
}

/// What the host does next for a step in its pod.
#[derive(Clone, Copy, PartialEq, Eq, Structural, Debug)]
pub enum JobPhase {
    /// Grow the resources for a reason: one that is recorded for an earlier attempt, or
    /// the one of the attempt that has just failed, with the delay in nanoseconds before
    /// the next.
    Grow(FailureReason, Option<u64>),
    /// Wait for a permit.
    Permit,
    /// Read the records of the step.
    Events,
    /// Create the job of the attempt, or adopt the one that is there.
    Create(usize),
    /// Poll the attempt, with this many failures before it.
    Poll(usize),
    /// Record that the step is tried again, for this reason, after a delay in
    /// nanoseconds.
    Record(FailureReason, u64),
    /// Sleep this many nanoseconds.
    Backoff(u64),
    /// The step has ended, well or not.
    End(bool),
}

/// The attempts of a step in its pods.
#[derive(Debug)]
pub struct JobRun {
    pub origin: Origin,
    pub instance_name: String,
    pub permits: bool,
    /// Whether the policy of the step grows the resources of an attempt that failed.
    pub escalates: bool,
    /// The reasons of the retries that were recorded before, in order.
    pub recorded: Vec<FailureReason>,
    /// How many of them the resources have been grown for, or are being.
    pub replayed: usize,
    pub compute: Compute,
    pub holds_permit: bool,
    pub attempt: u32,
    pub phase: JobPhase,
}

/// A permit is held exactly from its grant to the end of the attempt, and no attempt
/// begins before the recorded reasons have grown the resources.
pub open spec fn job_wf(j: JobRun) -> bool {
    &&& j.attempt >= 1
    &&& j.holds_permit == (j.permits && (j.phase is Events || j.phase is Create
        || j.phase is Poll))
    &&& j.phase is Permit ==> j.permits
    &&& j.phase is Grow ==> j.escalates
    &&& j.replayed <= j.recorded@.len()
    &&& j.phase matches JobPhase::Grow(reason, None) ==> j.replayed > 0
        && j.recorded@[j.replayed - 1] == reason
    &&& (j.escalates && !(j.phase matches JobPhase::Grow(_, None))) ==> j.replayed
        == j.recorded@.len()
}

/// The phase in which an attempt begins.
pub open spec fn attempt_start(permits: bool) -> JobPhase {
    if permits {
        JobPhase::Permit
    } else {
        JobPhase::Events
    }
}

/// The phase in which a run goes on that has replayed this many of the recorded reasons.
pub open spec fn replay_phase(j: JobRun) -> JobPhase {
    if j.escalates && j.replayed < j.recorded@.len() {
        JobPhase::Grow(j.recorded@[j.replayed as int], None)
    } else {
        attempt_start(j.permits)
    }
}

/// A run after the next of the recorded reasons has come up, or the first attempt where
/// there is none.
pub open spec fn replaying(j: JobRun) -> JobRun {
    JobRun {
        phase: replay_phase(j),
        replayed: if j.escalates && j.replayed < j.recorded@.len() {
            (j.replayed + 1) as usize
        } else {
            j.replayed
        },
        ..j
    }
}

/// How many failures count as earlier ones: those that are recorded, but no more than
/// there were attempts, so that a failure that this attempt recorded before a restart
/// ends it at once.
pub open spec fn baseline_of(recorded: int, attempt: int) -> int {
    if recorded < attempt - 1 {
        recorded
    } else {
        attempt - 1
    }
}

impl JobRun {
    pub open spec fn wf(&self) -> bool {
        job_wf(*self)
    }

    fn replay(&mut self)
        requires
            old(self).replayed <= old(self).recorded@.len(),
        ensures
            *final(self) == replaying(*old(self)),
            old(self).escalates && old(self).replayed < old(self).recorded@.len()
                ==> final(self).replayed == old(self).replayed + 1,
    {
        if self.escalates && self.replayed < self.recorded.len() {
            self.phase = JobPhase::Grow(self.recorded[self.replayed], None);
            self.replayed = self.replayed + 1;
        } else {
            self.phase = if self.permits {
                JobPhase::Permit
            } else {
                JobPhase::Events
            };
        }
    }

    /// A step that is about to run: `recorded` are the reasons of the retries that are
    /// recorded for it, `compute` the resources of its first pod. Its attempts go on
    /// where the recorded ones ended, with resources grown for each of their reasons.
    pub fn new(
        origin: Origin,
        instance_name: String,
        permits: bool,
        escalates: bool,
        recorded: Vec<FailureReason>,
        compute: Compute,
    ) -> (r: Self)
        requires
            recorded@.len() < u32::MAX,
        ensures
            r.wf(),
            r == replaying(
                JobRun {
                    origin,
                    instance_name,
                    permits,
                    escalates,
                    recorded,
                    replayed: 0,
                    compute,
                    holds_permit: false,
                    attempt: (recorded@.len() + 1) as u32,
                    phase: attempt_start(permits),
                },
            ),
    {
        let count: u32 = recorded.len() as u32;
        let mut r = JobRun {
            origin,
            instance_name,
            permits,
            escalates,
            recorded,
            replayed: 0,
            compute,
            holds_permit: false,
            attempt: count + 1,
            phase: if permits {
                JobPhase::Permit
            } else {
                JobPhase::Events
            },
        };
        r.replay();
        r
    }

    /// The resources have grown.
    pub fn grown(&mut self, compute: Compute)
        requires
            old(self).wf(),
            old(self).phase is Grow,
        ensures
            final(self).wf(),
            *final(self) == match old(self).phase {
                JobPhase::Grow(reason, Some(delay)) => JobRun {
                    compute,
                    phase: JobPhase::Record(reason, delay),
                    ..*old(self)
                },
                _ => replaying(JobRun { compute, ..*old(self) }),
            },
    {
        self.compute = compute;
        match self.phase {
            JobPhase::Grow(reason, Some(delay)) => {
                self.phase = JobPhase::Record(reason, delay);
            },
            _ => {
                self.replay();
            },
        }
    }

    /// A permit was granted.
    pub fn permitted(&mut self)
        requires
            old(self).wf(),
            old(self).phase is Permit,
        ensures
            final(self).wf(),
            *final(self) == (JobRun {
                holds_permit: true,
                phase: JobPhase::Events,
                ..*old(self)
            }),
    {
        self.holds_permit = true;
        self.phase = JobPhase::Events;
    }

    /// The records of the step were read.
    pub fn listed(&mut self, events: &Vec<StepEvent>)
        requires
            old(self).wf(),
            old(self).phase is Events,
        ensures
            final(self).wf(),
            *final(self) == (JobRun {
                phase: JobPhase::Create(
                    baseline_of(step_failures(events@) as int, old(self).attempt as int) as usize,
                ),
                ..*old(self)
            }),
    {
        let recorded: usize = count_step_failures(events);
        let before: u32 = self.attempt - 1;
        let earlier: usize = if (recorded as u64) < (before as u64) {
            recorded
        } else {
            before as usize
        };
        self.phase = JobPhase::Create(earlier);
    }

    /// The job was created, or not.
    pub fn created(&mut self, ok: bool)
        requires
            old(self).wf(),
            old(self).phase is Create,
        ensures
            final(self).wf(),
            ok ==> *final(self) == (JobRun {
                phase: JobPhase::Poll(old(self).phase->Create_0),
                ..*old(self)
            }),
            !ok ==> *final(self) == (JobRun {
                phase: JobPhase::End(false),
                holds_permit: false,
                ..*old(self)
            }),
    {
        match self.phase {
            JobPhase::Create(n) => {
                if ok {
                    self.phase = JobPhase::Poll(n);
                } else {
                    self.holds_permit = false;
                    self.phase = JobPhase::End(false);
                }
            },
            _ => {},
        }
    }

    /// The attempt has ended. `retry` is the reason and the delay in nanoseconds where
    /// the policy of the step admits another; the resources grow first where it says so.
    pub fn polled(&mut self, success: bool, retry: Option<(FailureReason, u64)>)
        requires
            old(self).wf(),
            old(self).phase is Poll,
        ensures
            final(self).wf(),
            *final(self) == (JobRun {
                holds_permit: false,
                phase: if success {
                    JobPhase::End(true)
                } else {
                    match retry {
                        Some((reason, delay)) => if old(self).escalates {
                            JobPhase::Grow(reason, Some(delay))
                        } else {
                            JobPhase::Record(reason, delay)
                        },
                        None => JobPhase::End(false),
                    }
                },
                ..*old(self)
            }),
    {
        self.holds_permit = false;
        if success {
            self.phase = JobPhase::End(true);
            return;
        }
        match retry {
            Some((reason, delay)) => {
                self.phase = if self.escalates {
                    JobPhase::Grow(reason, Some(delay))
                } else {
                    JobPhase::Record(reason, delay)
                };
            },
            None => {
                self.phase = JobPhase::End(false);
            },
        }
    }

    /// The record of the retry, with the resources of the next pod as `next_compute`
    /// writes them, where they can be written.
    pub fn retry_recorded(&mut self, next_compute: Option<String>, ts: i64) -> (r: EventRecord)
        requires
            old(self).wf(),
            old(self).phase is Record,
        ensures
            final(self).wf(),
            *final(self) == (JobRun {
                phase: JobPhase::Backoff(old(self).phase->Record_1),
                ..*old(self)
            }),
            r@ == plain_event(
                TypeView::StepRetry(
                    old(self).attempt,
                    old(self).phase->Record_0,
                    old(self).phase->Record_1 / 1_000_000,
                    opt_text(next_compute),
                ),
                old(self).origin@,
                old(self).instance_name@,
                ts,
            ),
    {
        let (reason, delay): (FailureReason, u64) = match self.phase {
            JobPhase::Record(reason, delay) => (reason, delay),
            _ => (FailureReason::Error, 0),
        };
        self.phase = JobPhase::Backoff(delay);
        bare_event(
            EventType::StepRetry {
                attempt: self.attempt,
                reason,
                delay_ms: delay / 1_000_000,
                next_compute,
            },
            &self.origin,
            self.instance_name.as_str(),
            ts,
        )
    }

    /// The backoff is over, or was cut short as the run was cancelled.
    pub fn slept(&mut self, cancelled: bool)
        requires
            old(self).wf(),
            old(self).phase is Backoff,
            old(self).attempt < u32::MAX,
        ensures
            final(self).wf(),
            cancelled ==> *final(self) == (JobRun { phase: JobPhase::End(false), ..*old(self) }),
            !cancelled ==> *final(self) == (JobRun {
                attempt: (old(self).attempt + 1) as u32,
                phase: attempt_start(old(self).permits),
                ..*old(self)
            }),
    {
        if cancelled {
            self.phase = JobPhase::End(false);
        } else {
            self.attempt = self.attempt + 1;
            self.phase = if self.permits {
                JobPhase::Permit
            } else {
                JobPhase::Events
            };
        }
    }
}

/// A run after its resources have grown this many times.
pub open spec fn grown_by(j: JobRun, computes: Seq<Compute>) -> JobRun
    decreases computes.len(),
{
    if computes.len() == 0 {
        j
    } else {
        replaying(JobRun { compute: computes.last(), ..grown_by(j, computes.drop_last()) })
    }
}

/// A restart replays the recorded reasons in order, each of them once: after `n` of them
/// the resources grow for the next, and after all of them the first attempt begins.
pub proof fn lemma_replay(j: JobRun, computes: Seq<Compute>)
    requires
        j.escalates,
        j.replayed == 0,
        computes.len() <= j.recorded@.len(),
        j.recorded@.len() < u32::MAX,
    ensures
        ({
            let k = grown_by(replaying(j), computes);
            let n = computes.len() as int;
            &&& k.recorded == j.recorded && k.escalates && k.permits == j.permits
            &&& n < j.recorded@.len() ==> {
                &&& k.phase == JobPhase::Grow(j.recorded@[n], None)
                &&& k.replayed == n + 1
            }
            &&& n == j.recorded@.len() ==> {
                &&& k.phase == attempt_start(j.permits)
                &&& k.replayed == n
            }
        }),
    decreases computes.len(),
{
    if computes.len() > 0 {
        lemma_replay(j, computes.drop_last());
    }
}

/// No permit is held while a step sleeps or waits, nor once it has ended.
pub proof fn lemma_job_permit(j: JobRun)
    requires
        job_wf(j),
        j.phase is Grow || j.phase is Record || j.phase is Backoff || j.phase is Permit
            || j.phase is End,
    ensures
        !j.holds_permit,
{
}

/// The image of step pods, which there must be.
pub fn worker_image(image: Option<String>) -> (r: Result<String, Fault>)
    ensures
        match r {
            Ok(s) => image == Some(s),
            Err(e) => image is None && e@ == (
                FaultKind::Configuration,
                "Kubernetes executor requires a worker image. Set RIVERS_CODE_LOCATION_IMAGE env var or pass worker_image to Executor.kubernetes()"@,
            ),
        },
{
    match image {
        Some(s) => Ok(s),
        None => Err(
            Fault::new(
                FaultKind::Configuration,
                "Kubernetes executor requires a worker image. Set RIVERS_CODE_LOCATION_IMAGE env var or pass worker_image to Executor.kubernetes()".to_owned(),
            ),
        ),
    }
}

/// The message of a node whose output no pod can see.
pub open spec fn pod_memory_message(name: Seq<char>) -> Seq<char> {
    "Asset '"@ + name
        + "' uses InMemoryIOHandler which cannot work with Kubernetes execution. InMemoryIOHandler stores data in process-local memory that is not accessible from step pods. Use PickleIOHandler or DeltaIOHandler instead."@
}

/// A run after the ends of a list of step pods: pods write their own records, so a
/// failed one is only marked and reported.
pub open spec fn pods_ended(b: BatchView, results: Seq<(String, bool)>) -> BatchView
    decreases results.len(),
{
    if results.len() == 0 {
        b
    } else {
        let before = pods_ended(b, results.drop_last());
        let name = results.last().0@;
        if results.last().1 {
            before
        } else {
            with_failure(
                with_failed(before, name),
                name,
                execution_error("K8s step pod failed for '"@ + name + "'"@),
            )
        }
    }
}

impl Batch {
    /// Checks that a pod can see what a step produces. A step whose output it cannot
    /// see fails, and the answer is no: the batch is not run.
    pub fn check_pod_handler(&mut self, step_name: &str, kind: &HandlerKind, ts: i64) -> (r: bool)
        requires
            old(self).wf(),
        ensures
            final(self).wf(),
            match *kind {
                HandlerKind::Shared => r && final(self)@ == old(self)@,
                HandlerKind::InMemory => !r && final(self)@ == recorded_failure(
                    old(self)@,
                    step_name@,
                    execution_error(pod_memory_message(step_name@)),
                    old(self)@.own_class,
                    ts,
                ),
                HandlerKind::Unknown(e, c) => !r && final(self)@ == recorded_failure(
                    old(self)@,
                    step_name@,
                    e@,
                    c@,
                    ts,
                ),
            },
    {
        match kind {
            HandlerKind::Shared => true,
            HandlerKind::InMemory => {
                self.record_own_failure(
                    step_name,
                    say3(
                        "Asset '",
                        step_name,
                        "' uses InMemoryIOHandler which cannot work with Kubernetes execution. InMemoryIOHandler stores data in process-local memory that is not accessible from step pods. Use PickleIOHandler or DeltaIOHandler instead.",
                    ),
                    ts,
                );
                false
            },
            HandlerKind::Unknown(e, c) => {
                self.record_failure_no_hooks(step_name, e.copy(), c, ts);
                false
            },
        }
    }

    /// Takes note of how a list of step pods ended.
    pub fn record_pods(&mut self, results: &Vec<(String, bool)>)
        requires
            old(self).wf(),
        ensures
            final(self).wf(),
            final(self)@ == pods_ended(old(self)@, results@),
    {
        let ghost b0 = self@;
        let ghost s = results@;
        let mut i: usize = 0;
        proof {
            assert(s.take(0) =~= Seq::empty());
        }
        while i < results.len()
            invariant
                self.wf(),
                s == results@,
                i <= s.len(),
                self@ == pods_ended(b0, s.take(i as int)),
            decreases s.len() - i,
        {
            proof {
                assert(s.take(i + 1).drop_last() =~= s.take(i as int));
                assert(s.take(i + 1).last() == s[i as int]);
            }
            if !results[i].1 {
                let name = results[i].0.as_str();
                self.mark_failed(name.to_owned());
                self.push_failure(
                    name.to_owned(),
                    StepError::execution(say3("K8s step pod failed for '", name, "'")),
                );
            }
            i += 1;
        }
        proof {
            assert(s.take(i as int) =~= s);
        }
    }
}

} // verus!
