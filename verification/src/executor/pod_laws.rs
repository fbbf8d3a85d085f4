//! What the pods and the records of a step say about its attempts.
use vstd::prelude::*;
use crate::executor::batch::{execution_error, BatchView};
use crate::executor::events::FailureReason;
use crate::executor::kubernetes::{
    attempt_told, baseline_of, container_reason, end_reason, ended_as, is_step_failure,
    last_failure, pod_reason, pods_ended, replaying, step_failures, Container, JobPhase, JobRun,
    OutcomeView, StepEvent, Terminated,
};
use crate::partitions::grid::opt_text;
use crate::text::texts;

verus! {

/// A container that is still in its last state counts by that.
pub proof fn lemma_ended_as(c: Container)
    ensures
        c.state is Some ==> ended_as(c) == c.state,
        c.state is None ==> ended_as(c) == c.last_state,
{
}

/// A container that was killed for want of memory ran out of it, whatever else it says; one
/// past its deadline timed out; any other that did not exit well failed. One that exited
/// well gives no reason.
pub proof fn lemma_end_reason(t: Terminated)
    ensures
        ({
            let killed = opt_text(t.reason) == Some("OOMKilled"@) || t.exit_code == 137;
            let late = opt_text(t.reason) == Some("DeadlineExceeded"@);
            &&& end_reason(t) == Some(FailureReason::OutOfMemory) <==> killed
            &&& end_reason(t) == Some(FailureReason::Timeout) <==> !killed && late
            &&& end_reason(t) == Some(FailureReason::Error) <==> !killed && !late && t.exit_code
                != 0
            &&& end_reason(t) is None <==> !killed && !late && t.exit_code == 0
        }),
{
}

/// The first container of a pod that gives a reason decides; where none does, it was the
/// infrastructure.
pub proof fn lemma_pod_reason(s: Seq<Container>)
    ensures
        (exists|i: int|
            0 <= i < s.len() && container_reason(#[trigger] s[i]) == Some(pod_reason(s)) && forall|
                j: int,
            |
                0 <= j < i ==> container_reason(#[trigger] s[j]) is None) || (pod_reason(s)
            is Infrastructure && forall|i: int|
            0 <= i < s.len() ==> container_reason(#[trigger] s[i]) is None),
        forall|i: int|
            0 <= i < s.len() ==> container_reason(#[trigger] s[i]) == match ended_as(s[i]) {
                Some(t) => end_reason(t),
                None => None,
            },
    decreases s.len(),
{
    if s.len() > 0 {
        let w = s.drop_first();
        lemma_pod_reason(w);
        if container_reason(s[0]) is Some {
            assert(container_reason(s[0]) == Some(pod_reason(s)));
        } else if exists|i: int|
            0 <= i < w.len() && container_reason(#[trigger] w[i]) == Some(pod_reason(w))
                && forall|j: int| 0 <= j < i ==> container_reason(#[trigger] w[j]) is None {
            let i = choose|i: int|
                0 <= i < w.len() && container_reason(#[trigger] w[i]) == Some(pod_reason(w))
                    && forall|j: int| 0 <= j < i ==> container_reason(#[trigger] w[j]) is None;
            assert(s[i + 1] == w[i]);
            assert forall|j: int| 0 <= j < i + 1 implies container_reason(
                #[trigger] s[j],
            ) is None by {
                if j > 0 {
                    assert(w[j - 1] == s[j]);
                }
            }
        } else {
            assert forall|j: int| 0 <= j < s.len() implies container_reason(
                #[trigger] s[j],
            ) is None by {
                if j > 0 {
                    assert(w[j - 1] == s[j]);
                }
            }
        }
    }
}

/// The failures of a step are counted without those of its partitions.
pub proof fn lemma_step_failures(s: Seq<StepEvent>)
    ensures
        step_failures(s) == s.filter(|e: StepEvent| e is Failure && !e->keyed).len(),
    decreases s.len(),
{
    reveal(Seq::filter);
    if s.len() > 0 {
        lemma_step_failures(s.drop_last());
        assert(is_step_failure(s.last()) == (s.last() is Failure && !s.last()->keyed));
    }
}

/// The last failure of a step counts, with its reason and the classes of its exception. One
/// without a reason is an error.
pub proof fn lemma_last_failure(s: Seq<StepEvent>, i: int)
    requires
        0 <= i < s.len(),
        s[i] is Failure && !s[i]->keyed,
        forall|j: int| i < j < s.len() ==> !((#[trigger] s[j]) is Failure && !s[j]->keyed),
    ensures
        s[i]->reason matches Some(r) ==> last_failure(s).0 == r,
        s[i]->reason is None ==> last_failure(s).0 is Error,
        last_failure(s).1 == texts(s[i]->exc_types@),
    decreases s.len(),
{
    if i < s.len() - 1 {
        let w = s.drop_last();
        assert(!(s[s.len() - 1] is Failure && !s[s.len() - 1]->keyed));
        assert(!is_step_failure(s.last()));
        assert(w[i] == s[i]);
        assert forall|j: int| i < j < w.len() implies !((#[trigger] w[j]) is Failure
            && !w[j]->keyed) by {
            assert(w[j] == s[j]);
        }
        lemma_last_failure(w, i);
    } else {
        assert(is_step_failure(s.last()));
    }
}

/// A recorded success ends an attempt well. Without one it has failed once there are more
/// failures than before it; a cancellation counts only where the records say nothing.
pub proof fn lemma_attempt_told(
    events: Option<&Vec<StepEvent>>,
    baseline: int,
    cancelled: Option<bool>,
)
    ensures
        ({
            let r = attempt_told(events, baseline, cancelled);
            let good = events is Some && exists|i: int|
                0 <= i < events->0@.len() && (#[trigger] events->0@[i]) is Success;
            let bad = events is Some && step_failures(events->0@) > baseline;
            &&& r == Some(OutcomeView::Success) <==> good
            &&& r matches Some(OutcomeView::Failed(reason, types)) ==> !good && bad && reason
                == last_failure(events->0@).0 && types == last_failure(events->0@).1
            &&& !good && bad ==> r is Some && r->0 is Failed
            &&& !good && !bad && cancelled == Some(true) ==> r == Some(OutcomeView::Cancelled)
            &&& !good && !bad && cancelled != Some(true) ==> r is None
        }),
{
}

/// No more failures count as earlier ones than are recorded, nor than there were attempts.
pub proof fn lemma_baseline(recorded: int, attempt: int)
    ensures
        baseline_of(recorded, attempt) <= recorded,
        baseline_of(recorded, attempt) <= attempt - 1,
        baseline_of(recorded, attempt) == recorded || baseline_of(recorded, attempt) == attempt - 1,
{
}

/// A run that grows its resources takes the recorded reasons one by one, and begins its
/// attempt once none is left; one that does not grow them begins at once. A permit is
/// waited for where one is needed.
pub proof fn lemma_replaying(j: JobRun)
    requires
        j.replayed <= j.recorded@.len(),
    ensures
        ({
            let r = replaying(j);
            let more = j.escalates && j.replayed < j.recorded@.len();
            &&& r == (JobRun { phase: r.phase, replayed: r.replayed, ..j })
            &&& more ==> r.phase == JobPhase::Grow(j.recorded@[j.replayed as int], None)
                && r.replayed == j.replayed + 1
            &&& !more ==> r.replayed == j.replayed
            &&& !more && j.permits ==> r.phase is Permit
            &&& !more && !j.permits ==> r.phase is Events
        }),
{
    let n: usize = j.recorded.len();
    assert(n == j.recorded@.len());
}

/// Each pod that did not end well fails its step and is reported, in order; the others
/// change nothing.
pub proof fn lemma_pods_ended(b: BatchView, results: Seq<(String, bool)>)
    ensures
        ({
            let r = pods_ended(b, results);
            let bad = results.filter(|p: (String, bool)| !p.1);
            &&& r == (BatchView { failed: r.failed, failures: r.failures, ..b })
            &&& r.failures == b.failures + bad.map_values(
                |p: (String, bool)|
                    (p.0@, execution_error("K8s step pod failed for '"@ + p.0@ + "'"@)),
            )
            &&& forall|n: Seq<char>| #[trigger]
                r.failed.contains(n) <==> b.failed.contains(n) || exists|i: int|
                    0 <= i < results.len() && (#[trigger] results[i]).0@ == n && !results[i].1
        }),
    decreases results.len(),
{
    reveal(Seq::filter);
    let p = |p: (String, bool)| !p.1;
    let f = |p: (String, bool)|
        (p.0@, execution_error("K8s step pod failed for '"@ + p.0@ + "'"@));
    let r = pods_ended(b, results);
    if results.len() > 0 {
        let w = results.drop_last();
        let q = pods_ended(b, w);
        lemma_pods_ended(b, w);
        let last = results.last();
        if p(last) {
            assert(results.filter(p) == w.filter(p).push(last));
            assert(b.failures + results.filter(p).map_values(f) =~= (b.failures + w.filter(
                p,
            ).map_values(f)).push(f(last)));
        }
        assert forall|n: Seq<char>| #[trigger] r.failed.contains(n) <==> b.failed.contains(n)
            || exists|i: int|
            0 <= i < results.len() && (#[trigger] results[i]).0@ == n && !results[i].1 by {
            assert(q.failed.contains(n) <==> b.failed.contains(n) || exists|i: int|
                0 <= i < w.len() && (#[trigger] w[i]).0@ == n && !w[i].1);
            if exists|i: int| 0 <= i < w.len() && (#[trigger] w[i]).0@ == n && !w[i].1 {
                let i = choose|i: int| 0 <= i < w.len() && (#[trigger] w[i]).0@ == n && !w[i].1;
                assert(results[i] == w[i]);
            }
            assert(results[results.len() - 1] == last);
            if exists|i: int|
                0 <= i < results.len() && (#[trigger] results[i]).0@ == n && !results[i].1 {
                let i = choose|i: int|
                    0 <= i < results.len() && (#[trigger] results[i]).0@ == n && !results[i].1;
                if i < w.len() {
                    assert(w[i] == results[i]);
                }
            }
        }
    } else {
        assert(b.failures + results.filter(p).map_values(f) =~= b.failures);
    }
}

} // verus!
