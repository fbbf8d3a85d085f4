//! How the life of a step goes from event to event: what it records, what it holds and what
//! comes next.
use vstd::prelude::*;
use crate::executor::events::{opt_logs, plain_event, EventView, FailureReason, LogsView, OriginView, TypeView};
use crate::executor::lifecycle::{
    life_after, newborn, record_each, retry_records, settled, EndView, LifeEvent, LifeResult,
    LifeView, PhaseView,
};
use crate::executor::result_laws::stream_said;

verus! {

/// A record is made for each name, in their order, and is the same but for the name.
pub proof fn lemma_recorded_each(
    kind: TypeView,
    origin: OriginView,
    names: Seq<Seq<char>>,
    ts: i64,
)
    ensures
        record_each(kind, origin, names, ts).len() == names.len(),
        forall|i: int|
            0 <= i < names.len() ==> #[trigger] record_each(kind, origin, names, ts)[i]
                == plain_event(kind, origin, names[i], ts),
{
}

/// A life in which a step starts to work: its start is recorded under each of its names.
pub open spec fn started_life(v: LifeView, ts: i64) -> LifeView {
    LifeView {
        records: v.records + record_each(TypeView::StepStart, v.origin, v.names, ts),
        phase: if v.count_prior && v.names.len() > 0 {
            PhaseView::Prior
        } else {
            PhaseView::Work
        },
        ..v
    }
}

/// A new life is the first attempt, holds nothing and has recorded nothing but its start.
/// It waits for a permit, then for its slots; one that needs neither starts at once.
pub proof fn lemma_born(
    origin: OriginView,
    step: Seq<char>,
    names: Seq<Seq<char>>,
    pools: bool,
    permits: bool,
    count_prior: bool,
    ts: i64,
)
    ensures
        ({
            let r = newborn(origin, step, names, pools, permits, count_prior, ts);
            &&& r.origin == origin && r.step == step && r.names == names
            &&& r.pools == pools && r.permits == permits && r.count_prior == count_prior
            &&& r.attempt == 1 && !r.holds_slots && !r.holds_permit
            &&& permits ==> r.phase is Permit && r.records.len() == 0
            &&& !permits && pools ==> r.phase is Slots && r.records.len() == 0
            &&& !permits && !pools ==> r.records == record_each(
                TypeView::StepStart,
                origin,
                names,
                ts,
            ) && r.phase == (if count_prior && names.len() > 0 {
                PhaseView::Prior
            } else {
                PhaseView::Work
            })
        }),
{
    let r = newborn(origin, step, names, pools, permits, count_prior, ts);
    if !permits && !pools {
        assert(r.records =~= record_each(TypeView::StepStart, origin, names, ts));
    }
}

/// With its permit a step asks for its slots, or starts where it needs none. With its slots
/// it starts.
pub proof fn lemma_admitted(v: LifeView, ts: i64)
    ensures
        v.phase is Permit && v.pools ==> life_after(v, LifeEvent::Permitted, ts) == (LifeView {
            holds_permit: true,
            phase: PhaseView::Slots,
            ..v
        }),
        v.phase is Permit && !v.pools ==> life_after(v, LifeEvent::Permitted, ts)
            == started_life(LifeView { holds_permit: true, ..v }, ts),
        v.phase is Slots ==> life_after(v, LifeEvent::Claimed, ts) == started_life(
            LifeView { holds_slots: true, ..v },
            ts,
        ),
{
}

/// A step whose slots are refused ends: it lets go of all it holds, records nothing more
/// and says why, and whether it had started before.
pub proof fn lemma_refused(v: LifeView, m: String, ts: i64)
    ensures
        v.phase is Slots ==> life_after(v, LifeEvent::Refused(m), ts) == (LifeView {
            holds_slots: false,
            holds_permit: false,
            phase: PhaseView::End(EndView::Unclaimed("Failed to claim pool slots: "@ + m@)),
            ..v
        }),
        v.phase is SlotsAgain ==> life_after(v, LifeEvent::Refused(m), ts) == (LifeView {
            holds_slots: false,
            holds_permit: false,
            phase: PhaseView::End(
                EndView::NotReclaimed("Failed to re-claim pool slots for retry: "@ + m@),
            ),
            ..v
        }),
{
}

/// The retries of an earlier run count as attempts that were made.
pub proof fn lemma_prior_counted(v: LifeView, n: u32, ts: i64)
    requires
        v.phase is Prior,
        v.attempt + n <= u32::MAX,
    ensures
        life_after(v, LifeEvent::Retries(n), ts).attempt == v.attempt + n,
        life_after(v, LifeEvent::Retries(n), ts) == (LifeView {
            attempt: life_after(v, LifeEvent::Retries(n), ts).attempt,
            phase: PhaseView::Work,
            ..v
        }),
{
}

/// Work that ended, that failed without another attempt, or that was lost ends the life of
/// the step, which then holds nothing.
pub proof fn lemma_work_over(v: LifeView, e: LifeEvent, ts: i64)
    requires
        v.phase is Work,
    ensures
        e is Worked || (e is Failed && e->retry is None) ==> life_after(v, e, ts) == (LifeView {
            holds_slots: false,
            holds_permit: false,
            phase: PhaseView::End(EndView::Worked),
            ..v
        }),
        e matches LifeEvent::Lost(m) ==> life_after(v, e, ts) == (LifeView {
            holds_slots: false,
            holds_permit: false,
            phase: PhaseView::End(EndView::Lost("spawn_blocking join error: "@ + m@)),
            ..v
        }),
{
}

/// What the logs of an attempt leave behind: one record with the streams that said
/// something, none where none did.
pub open spec fn attempt_logs(v: LifeView, logs: Option<LogsView>, ts: i64) -> Seq<EventView> {
    match logs {
        Some(l) => {
            let said = stream_said("stdout"@, l.0) + stream_said("stderr"@, l.1) + stream_said(
                "logs"@,
                l.2,
            );
            if said.len() == 0 {
                Seq::empty()
            } else {
                seq![
                    EventView {
                        metadata: said,
                        ..plain_event(TypeView::LogOutput, v.origin, v.step, ts)
                    },
                ]
            }
        },
        None => Seq::empty(),
    }
}

/// An attempt that is followed by another leaves its logs and, under each name, the retry
/// with the number of the attempt that failed, its reason and the delay in whole
/// milliseconds.
pub proof fn lemma_retry_recorded(
    v: LifeView,
    logs: Option<LogsView>,
    reason: FailureReason,
    delay: u64,
    ts: i64,
)
    ensures
        ({
            let r = retry_records(v, logs, reason, delay, ts);
            let said = attempt_logs(v, logs, ts);
            &&& r.len() == said.len() + v.names.len()
            &&& r.take(said.len() as int) == said
            &&& forall|i: int|
                0 <= i < v.names.len() ==> r[said.len() + i] == plain_event(
                    TypeView::StepRetry(v.attempt, reason, delay / 1_000_000, None),
                    v.origin,
                    #[trigger] v.names[i],
                    ts,
                )
        }),
{
    let r = retry_records(v, logs, reason, delay, ts);
    let said = attempt_logs(v, logs, ts);
    assert(r =~= said + record_each(
        TypeView::StepRetry(v.attempt, reason, delay / 1_000_000, None),
        v.origin,
        v.names,
        ts,
    ));
    assert(r.take(said.len() as int) =~= said);
}

/// A step that is to be tried again lets go of all it holds for as long as it sleeps, and
/// keeps it where there is nothing to sleep. The number of the attempt stands until the
/// next one begins.
pub proof fn lemma_tried_again(v: LifeView, e: LifeEvent, reason: FailureReason, delay: u64, ts: i64)
    requires
        v.phase is Work,
        e is Failed,
        e->retry == Some((reason, delay)),
    ensures
        ({
            let r = life_after(v, e, ts);
            &&& r == (LifeView {
                records: r.records,
                holds_slots: r.holds_slots,
                holds_permit: r.holds_permit,
                phase: r.phase,
                ..v
            })
            &&& r.records == v.records + retry_records(v, opt_logs(e->logs), reason, delay, ts)
            &&& delay == 0 ==> r.phase is Probe && r.holds_slots == v.holds_slots && r.holds_permit
                == v.holds_permit
            &&& delay > 0 ==> r.phase == PhaseView::Backoff(delay) && !r.holds_slots
                && !r.holds_permit
        }),
{
}

/// After a sleep a step gets its permit back first, then its slots, and only then asks
/// whether the run was cancelled. A sleep that was cut short ends its life.
pub proof fn lemma_woken(v: LifeView, e: LifeEvent, ts: i64)
    ensures
        v.phase is Backoff && e == (LifeEvent::Slept { cancelled: true }) ==> life_after(v, e, ts)
            == (LifeView {
            holds_slots: false,
            holds_permit: false,
            phase: PhaseView::End(EndView::Cancelled),
            ..v
        }),
        v.phase is Backoff && e == (LifeEvent::Slept { cancelled: false }) ==> ({
            let r = life_after(v, e, ts);
            &&& r == (LifeView { phase: r.phase, ..v })
            &&& v.permits && !v.holds_permit ==> r.phase is PermitAgain
            &&& !(v.permits && !v.holds_permit) && v.pools && !v.holds_slots ==> r.phase
                is SlotsAgain
            &&& !(v.permits && !v.holds_permit) && !(v.pools && !v.holds_slots) ==> r.phase
                is Probe
        }),
        v.phase is PermitAgain && e is Permitted ==> ({
            let r = life_after(v, e, ts);
            &&& r == (LifeView { holds_permit: true, phase: r.phase, ..v })
            &&& v.pools && !v.holds_slots ==> r.phase is SlotsAgain
            &&& !(v.pools && !v.holds_slots) ==> r.phase is Probe
        }),
        v.phase is SlotsAgain && e is Claimed && (v.permits ==> v.holds_permit) ==> life_after(
            v,
            e,
            ts,
        ) == (LifeView { holds_slots: true, phase: PhaseView::Probe, ..v }),
{
}

/// A cancelled run is not tried again. Else the next attempt begins: it has the next
/// number, keeps what the step holds and records its start under each name.
pub proof fn lemma_next_attempt(v: LifeView, e: LifeEvent, ts: i64)
    requires
        v.phase is Probe,
        v.attempt < u32::MAX,
    ensures
        e == (LifeEvent::Probed { cancelled: true }) ==> life_after(v, e, ts) == (LifeView {
            holds_slots: false,
            holds_permit: false,
            phase: PhaseView::End(EndView::Cancelled),
            ..v
        }),
        e == (LifeEvent::Probed { cancelled: false }) ==> ({
            let r = life_after(v, e, ts);
            &&& r.attempt == v.attempt + 1
            &&& r == (LifeView {
                attempt: r.attempt,
                phase: PhaseView::Work,
                records: v.records + record_each(TypeView::StepStart, v.origin, v.names, ts),
                ..v
            })
        }),
{
}

/// What a life that has ended reports. The outcome of the last attempt counts, without its
/// logs where a cancellation came after it. Slots that were refused stand in its place; a
/// step in place that never started has its own report of that, and keeps its
/// configuration where the slots were lost later.
pub proof fn lemma_life_settled(e: EndView, sync: bool, r: LifeResult)
    requires
        settled(e, sync, r),
    ensures
        r is Last <==> e is Worked,
        r is LastWithoutLogs <==> e is Cancelled,
        r is Unstarted <==> e is Unclaimed && sync,
        r is Instead <==> (e is Unclaimed && !sync) || e is NotReclaimed || e is Lost,
        r matches LifeResult::Instead { message, keep_config } ==> {
            &&& keep_config <==> e is NotReclaimed && sync
            &&& e matches EndView::Unclaimed(m) ==> message@ == m
            &&& e matches EndView::NotReclaimed(m) ==> message@ == m
            &&& e matches EndView::Lost(m) ==> message@ == m
        },
        r matches LifeResult::Unstarted(s) ==> e->Unclaimed_0 == s@,
{
}

} // verus!
