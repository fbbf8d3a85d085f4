//! How failures classify, and how a backoff is slept out.
use vstd::prelude::*;
use vstd::string::*;
use crate::executor::events::{Classified, EventRecord, EventType, EventView, FailureReason};
use crate::executor::lifecycle::records_view;
use crate::text::{has_text, same_text, texts};

verus! {

/// What the host knows of an exception: whether it is one of three kinds, and the
/// qualified names of its classes, derived first.
#[derive(Debug)]
pub struct ExceptionFacts {
    pub memory: bool,
    pub timeout: bool,
    pub interrupt: bool,
    pub mro: Vec<String>,
}

/// The classes of exceptions by which a worker process dies: environmental, not user
/// errors.
pub open spec fn infra_types() -> Seq<Seq<char>> {
    seq![
        "loky.process_executor.TerminatedWorkerError"@,
        "concurrent.futures.process.BrokenProcessPool"@,
        "concurrent.futures._base.BrokenExecutor"@,
    ]
}

/// The reason of a failure.
pub open spec fn reason_of(f: ExceptionFacts) -> FailureReason {
    if f.memory {
        FailureReason::OutOfMemory
    } else if f.timeout {
        FailureReason::Timeout
    } else if f.interrupt || texts(f.mro@).contains("asyncio.exceptions.CancelledError"@) {
        FailureReason::Cancelled
    } else if exists|i: int|
        0 <= i < f.mro@.len() && infra_types().contains((#[trigger] f.mro@[i])@) {
        FailureReason::Infrastructure
    } else {
        FailureReason::Error
    }
}

fn is_infra(name: &str) -> (r: bool)
    ensures
        r == infra_types().contains(name@),
{
    let a = "loky.process_executor.TerminatedWorkerError";
    let b = "concurrent.futures.process.BrokenProcessPool";
    let c = "concurrent.futures._base.BrokenExecutor";
    let r = same_text(name, a) || same_text(name, b) || same_text(name, c);
    proof {
        let s = infra_types();
        assert(s[0] == a@ && s[1] == b@ && s[2] == c@);
        if s.contains(name@) {
            let i = choose|i: int| 0 <= i < s.len() && s[i] == name@;
            assert(i == 0 || i == 1 || i == 2);
        }
    }
    r
}

/// Classify a raised exception.
pub fn classify_pyerr(facts: ExceptionFacts) -> (r: Classified)
    ensures
        r@ == (reason_of(facts), texts(facts.mro@)),
{
    let mut infra = false;
    let mut i: usize = 0;
    while i < facts.mro.len()
        invariant
            i <= facts.mro@.len(),
            infra == exists|j: int|
                0 <= j < i && infra_types().contains((#[trigger] facts.mro@[j])@),
        decreases facts.mro@.len() - i,
    {
        if is_infra(facts.mro[i].as_str()) {
            infra = true;
        }
        i += 1;
    }
    let reason = if facts.memory {
        FailureReason::OutOfMemory
    } else if facts.timeout {
        FailureReason::Timeout
    } else if facts.interrupt || has_text(&facts.mro, "asyncio.exceptions.CancelledError") {
        FailureReason::Cancelled
    } else if infra {
        FailureReason::Infrastructure
    } else {
        FailureReason::Error
    };
    Classified { reason, exc_types: facts.mro }
}

/// The length of a slice of a backoff: one second, in nanoseconds.
pub const SLICE_NS: u64 = 1_000_000_000;

/// What comes next in a backoff.
#[derive(Clone, Copy, PartialEq, Eq, Structural, Debug)]
pub enum Backoff {
    /// The delay has elapsed.
    Over,
    /// Sleep this long; then the delay has elapsed.
    Last(u64),
    /// Sleep this long, then ask whether the run was cancelled: if so the backoff
    /// ends there, else it goes on.
    Slice(u64),
}

/// What comes next when this much of a backoff is left.
pub open spec fn backoff_at(remaining: u64) -> Backoff {
    if remaining == 0 {
        Backoff::Over
    } else if remaining <= SLICE_NS {
        Backoff::Last(remaining)
    } else {
        Backoff::Slice(SLICE_NS)
    }
}

/// What comes next when this much of a backoff is left.
pub fn backoff_slice(remaining: u64) -> (r: Backoff)
    ensures
        r == backoff_at(remaining),
{
    if remaining == 0 {
        Backoff::Over
    } else if remaining <= SLICE_NS {
        Backoff::Last(remaining)
    } else {
        Backoff::Slice(SLICE_NS)
    }
}

/// How long a backoff sleeps in all, where each slice takes its time and no
/// cancellation comes.
pub open spec fn slept(remaining: u64) -> int
    decreases remaining,
{
    match backoff_at(remaining) {
        Backoff::Over => 0,
        Backoff::Last(n) => n as int,
        Backoff::Slice(n) => if n <= remaining && n > 0 {
            n + slept((remaining - n) as u64)
        } else {
            0
        },
    }
}

/// A backoff that is not cancelled sleeps out its delay exactly, in slices of at most
/// a second.
pub proof fn lemma_slept(remaining: u64)
    ensures
        slept(remaining) == remaining,
    decreases remaining,
{
    if remaining > SLICE_NS {
        lemma_slept((remaining - SLICE_NS) as u64);
    }
}

/// How many records of a list tell of a retry.
pub open spec fn retries_in(s: Seq<EventView>) -> int
    decreases s.len(),
{
    if s.len() == 0 {
        0
    } else {
        retries_in(s.drop_last()) + if s.last().kind is StepRetry {
            1int
        } else {
            0int
        }
    }
}

/// The retries that an earlier run has recorded for a step, as far as its records
/// could be read: another run of the step goes on counting from there.
pub fn prior_step_retries<E>(records: Result<&Vec<EventRecord>, E>) -> (r: u32)
    ensures
        match records {
            Ok(v) => r == retries_in(records_view(v@)) % 0x1_0000_0000,
            Err(_) => r == 0,
        },
{
    let v = match records {
        Ok(v) => v,
        Err(_) => {
            return 0;
        },
    };
    let ghost s = records_view(v@);
    let mut n: u32 = 0;
    let mut i: usize = 0;
    proof {
        assert(s.take(0) =~= Seq::empty());
    }
    while i < v.len()
        invariant
            s == records_view(v@),
            i <= v@.len(),
            n == retries_in(s.take(i as int)) % 0x1_0000_0000,
        decreases v@.len() - i,
    {
        proof {
            assert(s.take(i + 1).drop_last() =~= s.take(i as int));
            assert(s.take(i + 1).last() == v@[i as int]@);
        }
        if let EventType::StepRetry { .. } = v[i].event_type {
            n = n.wrapping_add(1);
        }
        i += 1;
    }
    proof {
        assert(s.take(i as int) =~= s);
    }
    n
}

} // verus!
