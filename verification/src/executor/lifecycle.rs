//! The life of a step: it claims its slots, starts, works, and is tried again while
//! its policy admits it. It never sleeps while it holds slots.
use vstd::prelude::*;
use vstd::string::*;
use crate::executor::events::{
    bare_event, emit_log_output, log_event, opt_logs, plain_event, CapturedLogs, EventRecord,
    EventType, EventView, FailureReason, LogsView, Origin, OriginView, TypeView,
};
use crate::text::texts;

verus! {

/// How the life of a step ended.
#[derive(Debug)]
pub enum LifeEnd {
    /// Its work ended; the last outcome stands as it is.
    Worked,
    /// The run was cancelled between attempts; the last error stands, its logs
    /// already recorded.
    Cancelled,
    /// It never got its slots.
    Unclaimed(String),
    /// It did not get its slots back for another attempt.
    NotReclaimed(String),
    /// Its work could not be waited for.
    Lost(String),
}

/// What an end says.
pub enum EndView {
    Worked,
    Cancelled,
    Unclaimed(Seq<char>),
    NotReclaimed(Seq<char>),
    Lost(Seq<char>),
}

impl View for LifeEnd {
    type V = EndView;

    open spec fn view(&self) -> EndView {
        match *self {
            LifeEnd::Worked => EndView::Worked,
            LifeEnd::Cancelled => EndView::Cancelled,
            LifeEnd::Unclaimed(m) => EndView::Unclaimed(m@),
            LifeEnd::NotReclaimed(m) => EndView::NotReclaimed(m@),
            LifeEnd::Lost(m) => EndView::Lost(m@),
        }
    }
}

/// What the host does next.
#[derive(Debug)]
pub enum LifePhase {
    /// Wait for a permit.
    Permit,
    /// Claim the slots of the pools.
    Slots,
    /// Count the retries that an earlier, crashed run has recorded.
    Prior,
    /// Do the work.
    Work,
    /// Sleep this many nanoseconds.
    Backoff(u64),
    /// Wait for a permit, after a backoff.
    PermitAgain,
    /// Claim the slots again, after a backoff.
    SlotsAgain,
    /// Ask whether the run was cancelled.
    Probe,
    /// Nothing more.
    End(LifeEnd),
}

/// What a phase says.
pub enum PhaseView {
    Permit,
    Slots,
    Prior,
    Work,
    Backoff(u64),
    PermitAgain,
    SlotsAgain,
    Probe,
    End(EndView),
}

impl View for LifePhase {
    type V = PhaseView;

    open spec fn view(&self) -> PhaseView {
        match *self {
            LifePhase::Permit => PhaseView::Permit,
            LifePhase::Slots => PhaseView::Slots,
            LifePhase::Prior => PhaseView::Prior,
            LifePhase::Work => PhaseView::Work,
            LifePhase::Backoff(n) => PhaseView::Backoff(n),
            LifePhase::PermitAgain => PhaseView::PermitAgain,
            LifePhase::SlotsAgain => PhaseView::SlotsAgain,
            LifePhase::Probe => PhaseView::Probe,
            LifePhase::End(e) => PhaseView::End(e@),
        }
    }
}

/// What the host reports.
#[derive(Debug)]
pub enum LifeEvent {
    /// A permit was granted.
    Permitted,
    /// The slots were claimed.
    Claimed,
    /// The slots could not be claimed.
    Refused(String),
    /// An earlier run has recorded this many retries.
    Retries(u32),
    /// The work ended without an error.
    Worked,
    /// The work failed. Another attempt is admitted with its reason and after its
    /// delay in nanoseconds, where the policy says so.
    Failed { logs: Option<CapturedLogs>, retry: Option<(FailureReason, u64)> },
    /// The work could not be waited for.
    Lost(String),
    /// The backoff is over, or was cut short as the run was cancelled.
    Slept { cancelled: bool },
    /// Whether the run was cancelled.
    Probed { cancelled: bool },
}

/// The life of a step.
#[derive(Debug)]
pub struct Lifecycle {
    pub origin: Origin,
    pub step_name: String,
    pub event_names: Vec<String>,
    /// Whether the step claims slots of pools.
    pub pools: bool,
    /// Whether it waits for a permit.
    pub permits: bool,
    /// Whether retries of an earlier run count.
    pub count_prior: bool,
    pub attempt: u32,
    pub holds_slots: bool,
    pub holds_permit: bool,
    pub phase: LifePhase,
    pub records: Vec<EventRecord>,
}

/// What a life is.
pub struct LifeView {
    pub origin: OriginView,
    pub step: Seq<char>,
    pub names: Seq<Seq<char>>,
    pub pools: bool,
    pub permits: bool,
    pub count_prior: bool,
    pub attempt: u32,
    pub holds_slots: bool,
    pub holds_permit: bool,
    pub phase: PhaseView,
    pub records: Seq<EventView>,
}

/// What each record of a list says.
pub open spec fn records_view(s: Seq<EventRecord>) -> Seq<EventView> {
    s.map_values(|e: EventRecord| e@)
}

impl View for Lifecycle {
    type V = LifeView;

    open spec fn view(&self) -> LifeView {
        LifeView {
            origin: self.origin@,
            step: self.step_name@,
            names: texts(self.event_names@),
            pools: self.pools,
            permits: self.permits,
            count_prior: self.count_prior,
            attempt: self.attempt,
            holds_slots: self.holds_slots,
            holds_permit: self.holds_permit,
            phase: self.phase@,
            records: records_view(self.records@),
        }
    }
}

/// One record for each name of a list.
pub open spec fn record_each(
    kind: TypeView,
    origin: OriginView,
    names: Seq<Seq<char>>,
    ts: i64,
) -> Seq<EventView> {
    names.map_values(|n: Seq<char>| plain_event(kind, origin, n, ts))
}

/// A life whose work begins: its start is recorded under each of its names.
pub open spec fn starting(v: LifeView, ts: i64) -> LifeView {
    LifeView {
        records: v.records + record_each(TypeView::StepStart, v.origin, v.names, ts),
        phase: PhaseView::Work,
        ..v
    }
}

/// A life that has what it needs to start. Retries of an earlier run are counted
/// after the start.
pub open spec fn ready(v: LifeView, ts: i64) -> LifeView {
    LifeView {
        phase: if v.count_prior && v.names.len() > 0 {
            PhaseView::Prior
        } else {
            PhaseView::Work
        },
        ..starting(v, ts)
    }
}

/// A life that waits for its slots, where it needs any.
pub open spec fn to_slots(v: LifeView, ts: i64) -> LifeView {
    if v.pools {
        LifeView { phase: PhaseView::Slots, ..v }
    } else {
        ready(v, ts)
    }
}

/// A life that has ended: it holds nothing any more.
pub open spec fn ending(v: LifeView, e: EndView) -> LifeView {
    LifeView { holds_slots: false, holds_permit: false, phase: PhaseView::End(e), ..v }
}

/// The records of an attempt that is followed by another: its logs, and the retry
/// under each name.
pub open spec fn retry_records(
    v: LifeView,
    logs: Option<LogsView>,
    reason: FailureReason,
    delay_ns: u64,
    ts: i64,
) -> Seq<EventView> {
    (match logs {
        Some(l) => match log_event(l, v.origin, v.step, ts) {
            Some(e) => seq![e],
            None => Seq::empty(),
        },
        None => Seq::empty(),
    }) + record_each(
        TypeView::StepRetry(v.attempt, reason, delay_ns / 1_000_000, None),
        v.origin,
        v.names,
        ts,
    )
}

/// A life after a backoff: it gets its permit and its slots back before it asks for a
/// cancellation.
pub open spec fn after_backoff(v: LifeView) -> LifeView {
    if v.permits && !v.holds_permit {
        LifeView { phase: PhaseView::PermitAgain, ..v }
    } else if v.pools && !v.holds_slots {
        LifeView { phase: PhaseView::SlotsAgain, ..v }
    } else {
        LifeView { phase: PhaseView::Probe, ..v }
    }
}

/// Whether an event answers a phase.
pub open spec fn answers(phase: PhaseView, e: LifeEvent) -> bool {
    match phase {
        PhaseView::Permit => e is Permitted,
        PhaseView::Slots => e is Claimed || e is Refused,
        PhaseView::Prior => e is Retries,
        PhaseView::Work => e is Worked || e is Failed || e is Lost,
        PhaseView::Backoff(_) => e is Slept,
        PhaseView::PermitAgain => e is Permitted,
        PhaseView::SlotsAgain => e is Claimed || e is Refused,
        PhaseView::Probe => e is Probed,
        PhaseView::End(_) => false,
    }
}

/// A life after an event.
pub open spec fn life_after(v: LifeView, e: LifeEvent, ts: i64) -> LifeView {
    match (v.phase, e) {
        (PhaseView::Permit, LifeEvent::Permitted) => to_slots(
            LifeView { holds_permit: true, ..v },
            ts,
        ),
        (PhaseView::Slots, LifeEvent::Claimed) => ready(LifeView { holds_slots: true, ..v }, ts),
        (PhaseView::Slots, LifeEvent::Refused(m)) => ending(
            v,
            EndView::Unclaimed("Failed to claim pool slots: "@ + m@),
        ),
        (PhaseView::Prior, LifeEvent::Retries(n)) => LifeView {
            attempt: (v.attempt + n) as u32,
            phase: PhaseView::Work,
            ..v
        },
        (PhaseView::Work, LifeEvent::Worked) => ending(v, EndView::Worked),
        (PhaseView::Work, LifeEvent::Lost(m)) => ending(
            v,
            EndView::Lost("spawn_blocking join error: "@ + m@),
        ),
        (PhaseView::Work, LifeEvent::Failed { logs, retry }) => match retry {
            None => ending(v, EndView::Worked),
            Some((reason, delay)) => {
                let told = LifeView {
                    records: v.records + retry_records(v, opt_logs(logs), reason, delay, ts),
                    ..v
                };
                if delay == 0 {
                    LifeView { phase: PhaseView::Probe, ..told }
                } else {
                    LifeView {
                        holds_slots: false,
                        holds_permit: false,
                        phase: PhaseView::Backoff(delay),
                        ..told
                    }
                }
            },
        },
        (PhaseView::Backoff(_), LifeEvent::Slept { cancelled }) => if cancelled {
            ending(v, EndView::Cancelled)
        } else {
            after_backoff(v)
        },
        (PhaseView::PermitAgain, LifeEvent::Permitted) => after_backoff(
            LifeView { holds_permit: true, ..v },
        ),
        (PhaseView::SlotsAgain, LifeEvent::Claimed) => after_backoff(
            LifeView { holds_slots: true, ..v },
        ),
        (PhaseView::SlotsAgain, LifeEvent::Refused(m)) => ending(
            v,
            EndView::NotReclaimed("Failed to re-claim pool slots for retry: "@ + m@),
        ),
        (PhaseView::Probe, LifeEvent::Probed { cancelled }) => if cancelled {
            ending(v, EndView::Cancelled)
        } else {
            starting(LifeView { attempt: (v.attempt + 1) as u32, ..v }, ts)
        },
        _ => v,
    }
}

/// What a life holds goes with its phase: everything that it needs while it works,
/// nothing while it sleeps or once it has ended.
pub open spec fn life_wf(v: LifeView) -> bool {
    &&& v.attempt >= 1
    &&& v.holds_slots ==> v.pools
    &&& v.holds_permit ==> v.permits
    &&& match v.phase {
        PhaseView::Permit => v.permits && !v.holds_permit && !v.holds_slots,
        PhaseView::Slots => v.pools && !v.holds_slots && v.holds_permit == v.permits,
        PhaseView::Prior => v.holds_slots == v.pools && v.holds_permit == v.permits,
        PhaseView::Work => v.holds_slots == v.pools && v.holds_permit == v.permits,
        PhaseView::Backoff(d) => d > 0 && !v.holds_slots && !v.holds_permit,
        PhaseView::PermitAgain => v.permits && !v.holds_permit && !v.holds_slots,
        PhaseView::SlotsAgain => v.pools && !v.holds_slots && v.holds_permit == v.permits,
        PhaseView::Probe => v.holds_slots == v.pools && v.holds_permit == v.permits,
        PhaseView::End(_) => !v.holds_slots && !v.holds_permit,
    }
}

/// A life before anything has happened.
pub open spec fn newborn(
    origin: OriginView,
    step: Seq<char>,
    names: Seq<Seq<char>>,
    pools: bool,
    permits: bool,
    count_prior: bool,
    ts: i64,
) -> LifeView {
    let v = LifeView {
        origin,
        step,
        names,
        pools,
        permits,
        count_prior,
        attempt: 1,
        holds_slots: false,
        holds_permit: false,
        phase: PhaseView::Permit,
        records: Seq::empty(),
    };
    if permits {
        v
    } else {
        to_slots(v, ts)
    }
}

/// Whatever happens, a step works only while it holds all that it needs, and holds
/// nothing while it sleeps or once it has ended.
pub proof fn lemma_life_kept(v: LifeView, e: LifeEvent, ts: i64)
    requires
        life_wf(v),
        answers(v.phase, e),
        v.attempt < u32::MAX,
        e matches LifeEvent::Retries(n) ==> v.attempt + n <= u32::MAX,
    ensures
        life_wf(life_after(v, e, ts)),
{
}

/// A new life keeps to what a life holds.
pub proof fn lemma_newborn(
    origin: OriginView,
    step: Seq<char>,
    names: Seq<Seq<char>>,
    pools: bool,
    permits: bool,
    count_prior: bool,
    ts: i64,
)
    ensures
        life_wf(newborn(origin, step, names, pools, permits, count_prior, ts)),
{
}

/// Between two attempts the number of the attempt grows by one, and no cancelled run
/// is tried again.
pub proof fn lemma_attempts(v: LifeView, e: LifeEvent, ts: i64)
    requires
        life_wf(v),
        answers(v.phase, e),
        v.attempt < u32::MAX,
        v.phase is Probe,
    ensures
        e == (LifeEvent::Probed { cancelled: true }) ==> life_after(v, e, ts).phase
            == PhaseView::End(EndView::Cancelled),
        e == (LifeEvent::Probed { cancelled: false }) ==> {
            &&& life_after(v, e, ts).phase is Work
            &&& life_after(v, e, ts).attempt == v.attempt + 1
            &&& life_after(v, e, ts).records == v.records + record_each(
                TypeView::StepStart,
                v.origin,
                v.names,
                ts,
            )
        },
{
}

impl Lifecycle {
    pub open spec fn wf(&self) -> bool {
        life_wf(self@)
    }

    fn record_names(&mut self, event_type: EventType, ts: i64)
        ensures
            final(self)@ == (LifeView {
                records: old(self)@.records + record_each(
                    event_type@,
                    old(self)@.origin,
                    old(self)@.names,
                    ts,
                ),
                ..old(self)@
            }),
    {
        let ghost v0 = self@;
        let ghost t = v0.names;
        let ghost before = v0.records;
        let mut i: usize = 0;
        proof {
            assert(before + record_each(event_type@, v0.origin, t.take(0), ts) =~= before);
        }
        while i < self.event_names.len()
            invariant
                v0 == old(self)@,
                t == v0.names,
                before == v0.records,
                texts(self.event_names@) == t,
                self.origin@ == v0.origin,
                self@ == (LifeView { records: self@.records, ..v0 }),
                i <= t.len(),
                self@.records == before + record_each(
                    event_type@,
                    v0.origin,
                    t.take(i as int),
                    ts,
                ),
            decreases t.len() - i,
        {
            let e = bare_event(
                event_type.copy(),
                &self.origin,
                self.event_names[i].as_str(),
                ts,
            );
            let ghost prev = self@.records;
            let ghost ev = e@;
            self.records.push(e);
            proof {
                assert(t[i as int] == self.event_names@[i as int]@);
                assert(self@.records =~= prev.push(ev));
                assert(before + record_each(event_type@, v0.origin, t.take(i + 1), ts) =~= (before
                    + record_each(event_type@, v0.origin, t.take(i as int), ts)).push(ev));
            }
            i += 1;
        }
        proof {
            assert(t.take(i as int) =~= t);
        }
    }

    fn begin(&mut self, ts: i64)
        ensures
            final(self)@ == ready(old(self)@, ts),
    {
        self.record_names(EventType::StepStart, ts);
        proof {
            assert(texts(self.event_names@).len() == self.event_names@.len());
        }
        self.phase = if self.count_prior && self.event_names.len() > 0 {
            LifePhase::Prior
        } else {
            LifePhase::Work
        };
    }

    fn go_for_slots(&mut self, ts: i64)
        ensures
            final(self)@ == to_slots(old(self)@, ts),
    {
        if self.pools {
            self.phase = LifePhase::Slots;
        } else {
            self.begin(ts);
        }
    }

    fn end(&mut self, e: LifeEnd)
        ensures
            final(self)@ == ending(old(self)@, e@),
    {
        self.holds_slots = false;
        self.holds_permit = false;
        self.phase = LifePhase::End(e);
    }

    fn resume_backoff(&mut self)
        ensures
            final(self)@ == after_backoff(old(self)@),
    {
        if self.permits && !self.holds_permit {
            self.phase = LifePhase::PermitAgain;
        } else if self.pools && !self.holds_slots {
            self.phase = LifePhase::SlotsAgain;
        } else {
            self.phase = LifePhase::Probe;
        }
    }

    /// A step that is about to run: `pools` and `permits` say what it needs, and
    /// `count_prior` whether retries of an earlier run count.
    pub fn new(
        origin: Origin,
        step_name: String,
        event_names: Vec<String>,
        pools: bool,
        permits: bool,
        count_prior: bool,
        ts: i64,
    ) -> (r: Self)
        ensures
            r.wf(),
            r@ == newborn(
                origin@,
                step_name@,
                texts(event_names@),
                pools,
                permits,
                count_prior,
                ts,
            ),
    {
        let mut r = Lifecycle {
            origin,
            step_name,
            event_names,
            pools,
            permits,
            count_prior,
            attempt: 1,
            holds_slots: false,
            holds_permit: false,
            phase: LifePhase::Permit,
            records: Vec::new(),
        };
        proof {
            assert(records_view(r.records@) =~= Seq::empty());
        }
        if !permits {
            r.go_for_slots(ts);
        }
        r
    }

    /// Takes note of what has happened. The host then lets go of what is no longer
    /// held, writes the new records and does what the phase says.
    pub fn advance(&mut self, event: LifeEvent, ts: i64)
        requires
            old(self).wf(),
            answers(old(self)@.phase, event),
            old(self).attempt < u32::MAX,
            event matches LifeEvent::Retries(n) ==> old(self).attempt + n <= u32::MAX,
        ensures
            final(self).wf(),
            final(self)@ == life_after(old(self)@, event, ts),
    {
        proof {
            lemma_life_kept(self@, event, ts);
        }
        match event {
            LifeEvent::Permitted => {
                self.holds_permit = true;
                match self.phase {
                    LifePhase::Permit => {
                        self.go_for_slots(ts);
                    },
                    _ => {
                        self.resume_backoff();
                    },
                }
            },
            LifeEvent::Claimed => {
                self.holds_slots = true;
                match self.phase {
                    LifePhase::Slots => {
                        self.begin(ts);
                    },
                    _ => {
                        self.resume_backoff();
                    },
                }
            },
            LifeEvent::Refused(m) => {
                match self.phase {
                    LifePhase::Slots => {
                        let mut s = "Failed to claim pool slots: ".to_owned();
                        s.append(m.as_str());
                        self.end(LifeEnd::Unclaimed(s));
                    },
                    _ => {
                        let mut s = "Failed to re-claim pool slots for retry: ".to_owned();
                        s.append(m.as_str());
                        self.end(LifeEnd::NotReclaimed(s));
                    },
                }
            },
            LifeEvent::Retries(n) => {
                self.attempt = self.attempt + n;
                self.phase = LifePhase::Work;
            },
            LifeEvent::Worked => {
                self.end(LifeEnd::Worked);
            },
            LifeEvent::Lost(m) => {
                let mut s = "spawn_blocking join error: ".to_owned();
                s.append(m.as_str());
                self.end(LifeEnd::Lost(s));
            },
            LifeEvent::Failed { logs, retry } => {
                match retry {
                    None => {
                        self.end(LifeEnd::Worked);
                    },
                    Some((reason, delay)) => {
                        let ghost before = self@.records;
                        let ghost told = retry_records(self@, opt_logs(logs), reason, delay, ts);
                        let ghost mut spoken: Seq<EventView> = Seq::empty();
                        if let Some(l) = &logs {
                            if let Some(e) = emit_log_output(
                                l,
                                &self.origin,
                                self.step_name.as_str(),
                                ts,
                            ) {
                                let ghost ev = e@;
                                self.records.push(e);
                                proof {
                                    spoken = seq![ev];
                                    assert(self@.records =~= before + spoken);
                                }
                            }
                        }
                        proof {
                            assert(self@.records =~= before + spoken);
                        }
                        let ms: u64 = delay / 1_000_000;
                        let kind = EventType::StepRetry {
                            attempt: self.attempt,
                            reason,
                            delay_ms: ms,
                            next_compute: None,
                        };
                        self.record_names(kind, ts);
                        proof {
                            assert(self@.records =~= before + told);
                        }
                        if delay == 0 {
                            self.phase = LifePhase::Probe;
                        } else {
                            self.holds_slots = false;
                            self.holds_permit = false;
                            self.phase = LifePhase::Backoff(delay);
                        }
                    },
                }
            },
            LifeEvent::Slept { cancelled } => {
                if cancelled {
                    self.end(LifeEnd::Cancelled);
                } else {
                    self.resume_backoff();
                }
            },
            LifeEvent::Probed { cancelled } => {
                if cancelled {
                    self.end(LifeEnd::Cancelled);
                } else {
                    self.attempt = self.attempt + 1;
                    self.record_names(EventType::StepStart, ts);
                    self.phase = LifePhase::Work;
                }
            },
        }
    }
}

/// What a step that has lived reports.
#[derive(Debug)]
pub enum LifeResult {
    /// Its last outcome, as it is.
    Last,
    /// Its last outcome, an error, without logs.
    LastWithoutLogs,
    /// A failure of the execution class that runs no hooks, as it never started.
    Unstarted(String),
    /// An error of the execution class in place of its last outcome, with the
    /// configuration of the step where that is kept.
    Instead { message: String, keep_config: bool },
}

/// What a step that has lived reports.
pub open spec fn settled(e: EndView, sync: bool, r: LifeResult) -> bool {
    match e {
        EndView::Worked => r is Last,
        EndView::Cancelled => r is LastWithoutLogs,
        EndView::Unclaimed(m) => if sync {
            r matches LifeResult::Unstarted(s) && s@ == m
        } else {
            r matches LifeResult::Instead { message, keep_config } && message@ == m
                && !keep_config
        },
        EndView::NotReclaimed(m) => r matches LifeResult::Instead { message, keep_config }
            && message@ == m && keep_config == sync,
        EndView::Lost(m) => r matches LifeResult::Instead { message, keep_config } && message@
            == m && !keep_config,
    }
}

impl LifeEnd {
    /// What the step reports: one that runs in place and one that runs on another
    /// thread differ in what becomes of slots that were not claimed.
    pub fn settle(self, sync: bool) -> (r: LifeResult)
        ensures
            settled(self@, sync, r),
    {
        match self {
            LifeEnd::Worked => LifeResult::Last,
            LifeEnd::Cancelled => LifeResult::LastWithoutLogs,
            LifeEnd::Unclaimed(message) => if sync {
                LifeResult::Unstarted(message)
            } else {
                LifeResult::Instead { message, keep_config: false }
            },
            LifeEnd::NotReclaimed(message) => LifeResult::Instead { message, keep_config: sync },
            LifeEnd::Lost(message) => LifeResult::Instead { message, keep_config: false },
        }
    }
}

} // verus!
