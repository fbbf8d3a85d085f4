//! How a step claims slots of pools, keeps them and gives them back.
use vstd::prelude::*;
use vstd::string::*;
use crate::executor::classify::pools_view;
use crate::executor::events::{
    bare_event, pairs_view, plain_event, step_event, EventRecord, EventType, EventView, Origin,
    OriginView, TypeView,
};
use crate::executor::spans::{spans_fit, spans_ns};
use crate::text::{join_texts, joined, say4, texts};

verus! {

/// How many polls pass between two warnings.
pub const CLAIM_WARN_THRESHOLD: u32 = 30;

/// How often a claim is polled unless set otherwise, in nanoseconds.
pub const CLAIM_POLL_INTERVAL_NS: u128 = 1_000_000_000;

/// By how much a poll is delayed at most unless set otherwise, in nanoseconds.
pub const CLAIM_POLL_JITTER_NS: u128 = 500_000_000;

/// How long a claim waits unless set otherwise, in nanoseconds.
pub const CLAIM_TIMEOUT_NS: u128 = 600_000_000_000;

/// The length of a duration in nanoseconds, where the text is one.
pub uninterp spec fn duration_of(text: Seq<char>) -> Option<nat>;

/// The duration that `humantime::parse_duration` reads in a text, in nanoseconds.
/// Which texts are durations, and how long they are, is not stated. Only texts whose
/// spans a duration can hold are handed over: one second more than that makes the call
/// report an error, or panic where it comes to exactly one second more.
#[verifier::external_body]
fn humantime_parse(text: &str) -> (r: Option<u128>)
    requires
        spans_ns(text@) is Some,
    ensures
        match r {
            Some(n) => duration_of(text@) == Some(n as nat),
            None => duration_of(text@) is None,
        },
{
    humantime::parse_duration(text).ok().map(|d| d.as_nanos())
}

/// The duration that a setting gives, where it is given as one. Spans that come to more
/// than a duration can hold are none.
pub open spec fn setting_read(value: Option<Seq<char>>) -> Option<nat> {
    match value {
        Some(s) => if spans_ns(s) is Some {
            duration_of(s)
        } else {
            None
        },
        None => None,
    }
}

/// The duration of a setting: the default where there is none, where it is longer than a
/// duration can be, or where it cannot be read.
pub fn duration_setting(value: Option<&str>, default_ns: u128) -> (r: u128)
    ensures
        r == setting_of(
            setting_read(
                match value {
                    Some(s) => Some(s@),
                    None => None,
                },
            ),
            default_ns as nat,
        ),
{
    match value {
        Some(s) => if spans_fit(s) {
            match humantime_parse(s) {
                Some(n) => n,
                None => default_ns,
            }
        } else {
            default_ns
        },
        None => default_ns,
    }
}

/// The duration of a setting that was read, else the default.
pub open spec fn setting_of(read: Option<nat>, default_ns: nat) -> nat {
    match read {
        Some(n) => n,
        None => default_ns,
    }
}

/// The delay of a poll, in milliseconds: `sample` is arbitrary, and the delay stays
/// under the limit.
pub fn jitter_ms(sample: u64, max_ms: u64) -> (r: u64)
    ensures
        max_ms == 0 ==> r == 0,
        max_ms > 0 ==> r == sample % max_ms && r < max_ms,
{
    if max_ms == 0 {
        0
    } else {
        sample % max_ms
    }
}

/// What the store says of a claim.
#[derive(Debug)]
pub enum ClaimStatus {
    Claimed,
    /// Not yet: why, and whether the time for waiting is over.
    Pending { reason: String, expired: bool },
    /// The store failed.
    Failed(String),
}

/// What follows from a poll.
#[derive(Debug)]
pub enum ClaimStep {
    /// The slots are claimed.
    Done,
    /// The claim has failed.
    Fail(String),
    /// Wait and poll again; warn where the flag holds.
    Wait { warn: bool },
}

/// A claim that is polled: how many polls were pending so far.
#[derive(Debug)]
pub struct ClaimPoll {
    pub origin: Origin,
    pub step_key: String,
    pub attempt: u32,
}

/// The names of a list of pools.
pub open spec fn pool_names(v: Seq<(Seq<char>, u32)>) -> Seq<Seq<char>> {
    v.map_values(|p: (Seq<char>, u32)| p.0)
}

/// The record of a claim.
pub open spec fn claimed_event(
    origin: OriginView,
    step: Seq<char>,
    pools: Seq<(Seq<char>, u32)>,
    ts: i64,
) -> EventView {
    EventView {
        metadata: seq![("pools"@, joined(pool_names(pools), ","@))],
        ..plain_event(TypeView::StepSlotClaimed, origin, step, ts)
    }
}

/// The record of a wait.
pub open spec fn waiting_event(
    origin: OriginView,
    step: Seq<char>,
    reason: Seq<char>,
    ts: i64,
) -> EventView {
    EventView {
        metadata: seq![("reason"@, reason)],
        ..plain_event(TypeView::StepSlotWaiting, origin, step, ts)
    }
}

/// The message of a claim whose time is over.
pub open spec fn claim_expired(step: Seq<char>, timeout: Seq<char>) -> Seq<char> {
    "step '"@ + step + "' timed out waiting for pool slots after "@ + timeout
}

fn names_of_pools(pools: &Vec<(String, u32)>) -> (r: Vec<String>)
    ensures
        texts(r@) == pool_names(pools_view(pools@)),
{
    let mut out: Vec<String> = Vec::new();
    let mut i: usize = 0;
    while i < pools.len()
        invariant
            i <= pools@.len(),
            out@.len() == i,
            forall|j: int| 0 <= j < i ==> (#[trigger] out@[j])@ == pools@[j].0@,
        decreases pools@.len() - i,
    {
        out.push(pools[i].0.clone());
        i += 1;
    }
    proof {
        assert(texts(out@) =~= pool_names(pools_view(pools@)));
    }
    out
}

impl ClaimPoll {
    pub fn new(origin: Origin, step_key: String) -> (r: Self)
        ensures
            r.origin == origin,
            r.step_key == step_key,
            r.attempt == 0,
    {
        ClaimPoll { origin, step_key, attempt: 0 }
    }

    /// What follows from a poll, and what is recorded: a claim, or the first wait.
    /// `timeout` is the form of the waiting time.
    pub fn on_status(
        &mut self,
        pools: &Vec<(String, u32)>,
        status: ClaimStatus,
        timeout: &str,
        ts: i64,
    ) -> (r: (ClaimStep, Option<EventRecord>))
        requires
            old(self).attempt < u32::MAX,
        ensures
            final(self).origin == old(self).origin,
            final(self).step_key == old(self).step_key,
            match status {
                ClaimStatus::Claimed => {
                    &&& r.0 is Done
                    &&& r.1 is Some && r.1->0@ == claimed_event(
                        old(self).origin@,
                        old(self).step_key@,
                        pools_view(pools@),
                        ts,
                    )
                    &&& final(self).attempt == old(self).attempt
                },
                ClaimStatus::Failed(e) => {
                    &&& r.0 matches ClaimStep::Fail(m) && m@ == e@
                    &&& r.1 is None
                    &&& final(self).attempt == old(self).attempt
                },
                ClaimStatus::Pending { reason, expired } => if expired {
                    &&& r.0 matches ClaimStep::Fail(m) && m@ == claim_expired(
                        old(self).step_key@,
                        timeout@,
                    )
                    &&& r.1 is None
                    &&& final(self).attempt == old(self).attempt
                } else {
                    &&& r.0 == (ClaimStep::Wait {
                        warn: old(self).attempt >= CLAIM_WARN_THRESHOLD && old(self).attempt
                            % CLAIM_WARN_THRESHOLD == 0,
                    })
                    &&& match r.1 {
                        Some(e) => old(self).attempt == 0 && e@ == waiting_event(
                            old(self).origin@,
                            old(self).step_key@,
                            reason@,
                            ts,
                        ),
                        None => old(self).attempt > 0,
                    }
                    &&& final(self).attempt == old(self).attempt + 1
                },
            },
    {
        match status {
            ClaimStatus::Claimed => {
                let mut meta: Vec<(String, String)> = Vec::new();
                meta.push(("pools".to_owned(), join_texts(&names_of_pools(pools), ",")));
                proof {
                    assert(pairs_view(meta@) =~= seq![
                        ("pools"@, joined(pool_names(pools_view(pools@)), ","@)),
                    ]);
                }
                let e = step_event(
                    EventType::StepSlotClaimed,
                    &self.origin,
                    self.step_key.as_str(),
                    meta,
                    ts,
                );
                (ClaimStep::Done, Some(e))
            },
            ClaimStatus::Failed(e) => (ClaimStep::Fail(e), None),
            ClaimStatus::Pending { reason, expired } => {
                if expired {
                    let m = say4(
                        "step '",
                        self.step_key.as_str(),
                        "' timed out waiting for pool slots after ",
                        timeout,
                    );
                    return (ClaimStep::Fail(m), None);
                }
                let event = if self.attempt == 0 {
                    let mut meta: Vec<(String, String)> = Vec::new();
                    meta.push(("reason".to_owned(), reason.clone()));
                    proof {
                        assert(pairs_view(meta@) =~= seq![("reason"@, reason@)]);
                    }
                    Some(
                        step_event(
                            EventType::StepSlotWaiting,
                            &self.origin,
                            self.step_key.as_str(),
                            meta,
                            ts,
                        ),
                    )
                } else {
                    None
                };
                let warn = self.attempt >= CLAIM_WARN_THRESHOLD && self.attempt
                    % CLAIM_WARN_THRESHOLD == 0;
                self.attempt = self.attempt + 1;
                (ClaimStep::Wait { warn }, event)
            },
        }
    }
}

/// How often a lease is renewed, in seconds: three times before it runs out, and at
/// least a second apart.
pub fn renewal_interval(lease_secs: u64) -> (r: u64)
    ensures
        r == if lease_secs / 3 >= 1 {
            lease_secs / 3
        } else {
            1
        },
        lease_secs >= 3 ==> r * 3 <= lease_secs,
{
    if lease_secs / 3 >= 1 {
        lease_secs / 3
    } else {
        1
    }
}

/// What follows from a renewal.
#[derive(Debug)]
pub enum Renewal {
    /// Nothing was renewed: the lease may have run out. Stop.
    Stop,
    /// Go on, and write the record where there is one.
    Continue(Option<EventRecord>),
}

/// What follows from a renewal: `renewed` is how many slots were renewed, unless the
/// store failed.
pub fn on_renewal<E>(origin: &Origin, step_key: &str, renewed: Result<u64, E>, ts: i64) -> (r:
    Renewal)
    ensures
        match renewed {
            Ok(n) => if n == 0 {
                r is Stop
            } else {
                r matches Renewal::Continue(Some(e)) && e@ == plain_event(
                    TypeView::StepSlotRenewed,
                    origin@,
                    step_key@,
                    ts,
                )
            },
            Err(_) => r == Renewal::Continue(None),
        },
{
    match renewed {
        Ok(n) => {
            if n == 0 {
                Renewal::Stop
            } else {
                Renewal::Continue(
                    Some(bare_event(EventType::StepSlotRenewed, origin, step_key, ts)),
                )
            }
        },
        Err(_) => Renewal::Continue(None),
    }
}

/// The record of slots that were given back.
pub fn released_event(origin: &Origin, step_key: &str, ts: i64) -> (r: EventRecord)
    ensures
        r@ == plain_event(TypeView::StepSlotReleased, origin@, step_key@, ts),
{
    bare_event(EventType::StepSlotReleased, origin, step_key, ts)
}

} // verus!
