//! How the steps of a level are handed out: to the event loop, to worker processes or to
//! lives of their own, in windows where their number is limited.
use vstd::prelude::*;
use crate::executor::batch::{BatchView, ErrView};
use crate::executor::classify_laws::lemma_failed_frame;
use crate::executor::event_writer::{events_left, flushed, logs_left, FlushView, WriterMsg, BATCH_SIZE};
use crate::executor::events::{plain_event, ClassView, EventView, OriginView, TypeView};
use crate::executor::io::{context_of, node_def};
use crate::executor::orchestrate::{collect_of, InstanceView};
use crate::executor::parallel::{
    by_async, by_life, each_failed, handler_fault, handler_names, handlers_fault, own_life,
    stages_of, HandlerKind, Stage,
};
use crate::executor::plan::{ExecutionStep, NodeInfo};
use crate::executor::pool_claim::{claimed_event, waiting_event};
use crate::executor::results::failed_all;
use crate::executor::run_lifecycle::{failed_texts, final_status};
use crate::executor::submit::{collected_by, collected_in_plan, multi_specs, shown_name};
use crate::executor::window::{rest_of, 
    ended, not_submitted, submitted, window_action, WindowAction, WindowView,
};
use crate::executor::worker::{loads_of, next_action, next_load, WorkerAction, WorkerArg, WorkerRun};
use crate::partitions::facts::KeyFacts;
use crate::partitions::key::KeyView;
use crate::text::{joined, texts};

verus! {

/// The asynchronous instances and the others, each in their order.
pub proof fn lemma_by_async(s: Seq<InstanceView>, is_async: bool)
    ensures
        by_async(s, is_async) == s.filter(|i: InstanceView| i.is_async == is_async),
    decreases s.len(),
{
    reveal(Seq::filter);
    if s.len() > 0 {
        lemma_by_async(s.drop_last(), is_async);
    }
}

/// An instance lives its own life where it claims slots or its step may be tried again.
pub open spec fn claims_or_retries(i: InstanceView, retries: Seq<bool>) -> bool {
    i.pools.len() > 0 || (0 <= i.idx < retries.len() && retries[i.idx])
}

/// The instances that live their own lives and the others, each in their order.
pub proof fn lemma_by_life(s: Seq<InstanceView>, retries: Seq<bool>, own: bool)
    ensures
        by_life(s, retries, own) == s.filter(
            |i: InstanceView| claims_or_retries(i, retries) == own,
        ),
    decreases s.len(),
{
    reveal(Seq::filter);
    if s.len() > 0 {
        lemma_by_life(s.drop_last(), retries, own);
        assert(own_life(s.last(), retries) == claims_or_retries(s.last(), retries));
    }
}

/// A handler that keeps its data in this process is a fault where a step runs elsewhere,
/// one that cannot be told is its own fault, and a shared one is none.
pub proof fn lemma_handler_fault(name: Seq<char>, k: HandlerKind, own: ClassView)
    ensures
        k is Shared <==> handler_fault(name, k, own) is None,
        k is InMemory ==> (handler_fault(name, k, own)->0).1 == own,
        k matches HandlerKind::Unknown(e, c) ==> handler_fault(name, k, own) == Some((e@, c@)),
{
}

/// The first of a list of names whose handler is at fault decides.
pub proof fn lemma_handlers_fault(
    kinds: Map<Seq<char>, HandlerKind>,
    names: Seq<Seq<char>>,
    own: ClassView,
)
    ensures
        match handlers_fault(kinds, names, own) {
            Some(f) => exists|i: int|
                0 <= i < names.len() && kinds.dom().contains(#[trigger] names[i])
                    && handler_fault(names[i], kinds[names[i]], own) == Some(f) && forall|j: int|
                    0 <= j < i && kinds.dom().contains(#[trigger] names[j])
                        ==> kinds[names[j]] is Shared,
            None => forall|i: int|
                0 <= i < names.len() && kinds.dom().contains(#[trigger] names[i])
                    ==> kinds[names[i]] is Shared,
        },
    decreases names.len(),
{
    if names.len() > 0 {
        let w = names.drop_last();
        lemma_handlers_fault(kinds, w, own);
        match handlers_fault(kinds, w, own) {
            Some(f) => {
                let i = choose|i: int|
                    0 <= i < w.len() && kinds.dom().contains(#[trigger] w[i]) && handler_fault(
                        w[i],
                        kinds[w[i]],
                        own,
                    ) == Some(f) && forall|j: int|
                        0 <= j < i && kinds.dom().contains(#[trigger] w[j])
                            ==> kinds[w[j]] is Shared;
                assert(names[i] == w[i]);
                assert forall|j: int|
                    0 <= j < i && kinds.dom().contains(#[trigger] names[j]) implies
                    kinds[names[j]] is Shared by {
                    assert(w[j] == names[j]);
                }
            },
            None => {
                assert forall|j: int|
                    0 <= j < names.len() - 1 && kinds.dom().contains(#[trigger] names[j]) implies
                    kinds[names[j]] is Shared by {
                    assert(w[j] == names[j]);
                }
                assert(names[names.len() - 1] == names.last());
            },
        }
    }
}

/// The handlers of a step are those of its own name and of its outputs; a map instance has
/// that of its step alone.
pub proof fn lemma_handler_names(step: ExecutionStep, name: Seq<char>)
    ensures
        handler_names(step, true).contains(name) <==> name == step.name@,
        handler_names(step, false).contains(name) <==> name == step.name@ || texts(
            step.outputs@,
        ).contains(name),
        handler_names(step, false)[0] == step.name@,
{
    let a = handler_names(step, true);
    let b = handler_names(step, false);
    let t = texts(step.outputs@);
    assert(a[0] == step.name@);
    assert(b[0] == step.name@);
    if t.contains(name) {
        let i = choose|i: int| 0 <= i < t.len() && t[i] == name;
        assert(b[i + 1] == name);
    }
    if b.contains(name) {
        let i = choose|i: int| 0 <= i < b.len() && b[i] == name;
        if i > 0 {
            assert(t[i - 1] == name);
        }
    }
}

/// Each of a list of names fails with the same error, which is reported for each of them.
pub proof fn lemma_each_failed(
    b: BatchView,
    names: Seq<Seq<char>>,
    e: ErrView,
    class: ClassView,
    ts: i64,
)
    ensures
        each_failed(b, names, e, class, ts) == (BatchView {
            failures: b.failures + names.map_values(|n: Seq<char>| (n, e)),
            ..failed_all(b, names, e.1, class, ts)
        }),
    decreases names.len(),
{
    let f = |n: Seq<char>| (n, e);
    if names.len() > 0 {
        let w = names.drop_last();
        lemma_each_failed(b, w, e, class, ts);
        lemma_failed_frame(b, w, e.1, class, ts);
        assert(b.failures + names.map_values(f) =~= (b.failures + w.map_values(f)).push(
            f(names.last()),
        ));
    } else {
        assert(b.failures + names.map_values(f) =~= b.failures);
    }
}

/// How the instances of a level are run. A single one that is no map instance runs in this
/// process. Otherwise those without slots go to the workers, all at once or in a window,
/// the asynchronous ones to the event loop while the workers are busy, and those with slots
/// follow. Without workers those that need one fail and only the asynchronous ones run.
pub proof fn lemma_stages(
    n_async: nat,
    n_no_pool: nat,
    n_pool: nat,
    all_non_mapped: bool,
    workers: bool,
    limit: Option<usize>,
)
    ensures
        ({
            let r = stages_of(n_async, n_no_pool, n_pool, all_non_mapped, workers, limit);
            let alone = all_non_mapped && n_no_pool + n_pool == 1 && n_async == 0;
            let busy = !alone && n_no_pool > 0 && workers;
            &&& alone && n_pool == 0 ==> r == seq![Stage::InProcess]
            &&& alone && n_pool == 1 ==> r == seq![Stage::PoolInProcess]
            &&& r.contains(Stage::FailNoPool) <==> !alone && n_no_pool > 0 && !workers
            &&& r.contains(Stage::RunAsync) <==> n_async > 0
            &&& r.contains(Stage::Pool(limit)) <==> !alone && n_pool > 0 && (n_no_pool == 0
                || workers)
            &&& r.contains(Stage::InProcess) <==> (alone && n_pool == 0) || (busy && all_non_mapped
                && n_no_pool == 1)
            &&& r.contains(Stage::SubmitAll) <==> busy && !(all_non_mapped && n_no_pool == 1)
                && limit is None
            &&& r.contains(Stage::Collect) <==> r.contains(Stage::SubmitAll)
            &&& limit matches Some(n) ==> (r.contains(Stage::Windowed(n)) <==> busy && !(
            all_non_mapped && n_no_pool == 1))
            &&& r.contains(Stage::SubmitAll) ==> r[0] is SubmitAll && (n_async > 0 ==> r[1]
                is RunAsync && r[2] is Collect) && (n_async == 0 ==> r[1] is Collect)
            &&& r.contains(Stage::Pool(limit)) ==> r.last() == Stage::Pool(limit)
            &&& r.len() <= 4
        }),
{
    let r = stages_of(n_async, n_no_pool, n_pool, all_non_mapped, workers, limit);
    assert forall|s: Stage| #[trigger] r.contains(s) <==> (r.len() > 0 && r[0] == s) || (r.len()
        > 1 && r[1] == s) || (r.len() > 2 && r[2] == s) || (r.len() > 3 && r[3] == s) by {
        if r.contains(s) {
            let i = choose|i: int| 0 <= i < r.len() && r[i] == s;
            assert(i == 0 || i == 1 || i == 2 || i == 3);
        }
    }
    let alone = all_non_mapped && n_no_pool + n_pool == 1 && n_async == 0;
    if alone && n_pool == 0 {
        assert(r =~= seq![Stage::InProcess]);
    }
    if alone && n_pool == 1 {
        assert(r =~= seq![Stage::PoolInProcess]);
    }
}

/// A window lets an instance in while it fills up, or for each that has ended. After a
/// failure none follows one that has ended.
pub proof fn lemma_window_moves(w: WindowView, at: int, ok: bool)
    requires
        0 <= at < w.in_flight.len(),
        0 <= w.next <= usize::MAX,
    ensures
        window_action(w) matches WindowAction::Submit(n) ==> n == w.next && w.next < w.count
            && !w.stopped && (w.filling || !w.failed),
        w.next < w.count && !w.stopped && w.filling && w.in_flight.len() < w.limit
            ==> window_action(w) == WindowAction::Submit(w.next as usize),
        w.next < w.count && !w.stopped && w.owed && !w.failed ==> window_action(w)
            == WindowAction::Submit(w.next as usize),
        submitted(w).in_flight == w.in_flight.push(w.next as usize),
        submitted(w).next == w.next + 1 && submitted(w).failed == w.failed && !submitted(w).owed,
        not_submitted(w).in_flight == w.in_flight && not_submitted(w).next == w.next + 1
            && not_submitted(w).failed,
        ended(w, at, ok).in_flight == w.in_flight.remove(at),
        ended(w, at, ok).failed <==> w.failed || !ok,
        ended(w, at, ok).owed && !ended(w, at, ok).filling && ended(w, at, ok).next == w.next,
{
}

/// The next argument that is loaded is the first from a place on that loads anything.
pub proof fn lemma_first_load(args: Seq<WorkerArg>, i: int)
    requires
        0 <= i,
    ensures
        match next_load(args, i) {
            Some(j) => i <= j < args.len() && loads_of(args[j]) > 0 && forall|k: int|
                i <= k < j ==> loads_of(#[trigger] args[k]) <= 0,
            None => forall|k: int| i <= k < args.len() ==> loads_of(#[trigger] args[k]) <= 0,
        },
        forall|k: int|
            0 <= k < args.len() ==> loads_of(#[trigger] args[k]) == match args[k] {
                WorkerArg::Load => 1int,
                WorkerArg::Collect(n) => n as int,
                _ => 0int,
            },
    decreases args.len() - i,
{
    if i < args.len() && loads_of(args[i]) <= 0 {
        lemma_first_load(args, i + 1);
    }
}

/// What a worker does once an argument is loaded: the rest of it, then the next one that
/// loads anything, then the resources, the context and the function.
pub proof fn lemma_worker_loads(r: WorkerRun, i: usize, k: usize)
    requires
        r.action == WorkerAction::LoadArg(i, k),
        i < r.args@.len() < usize::MAX,
        k < usize::MAX,
    ensures
        next_action(r, false) is Raise,
        k + 1 < loads_of(r.args@[i as int]) ==> next_action(r, true) == WorkerAction::LoadArg(
            i,
            (k + 1) as usize,
        ),
        k + 1 >= loads_of(r.args@[i as int]) ==> ({
            let next = next_load(r.args@, i + 1);
            &&& next is Some ==> next_action(r, true) == WorkerAction::LoadArg(
                next->0 as usize,
                0,
            )
            &&& next is None && r.resources > 0 ==> next_action(r, true) == WorkerAction::SetUp(0)
            &&& next is None && r.resources == 0 && r.has_context ==> next_action(r, true)
                is MakeContext
            &&& next is None && r.resources == 0 && !r.has_context ==> next_action(r, true) is Body
        }),
{
}

/// What a worker does about its resources and its context: each resource is set up in turn
/// before the function, and each is torn down in turn after it, whether or not it went
/// well. A failure before the function is raised.
pub proof fn lemma_worker_steps(r: WorkerRun, ok: bool)
    requires
        r.resources < usize::MAX,
    ensures
        ({
            let n = next_action(r, ok);
            &&& r.action matches WorkerAction::SetUp(i) ==> i < r.resources ==> {
                &&& !ok ==> n is Raise
                &&& ok && i + 1 < r.resources ==> n == WorkerAction::SetUp((i + 1) as usize)
                &&& ok && i + 1 == r.resources && r.has_context ==> n is MakeContext
                &&& ok && i + 1 == r.resources && !r.has_context ==> n is Body
            }
            &&& r.action is MakeContext ==> (n is Body <==> ok) && (n is Raise <==> !ok)
            &&& r.action is Body && r.resources > 0 ==> n == WorkerAction::TearDown(0)
            &&& r.action matches WorkerAction::TearDown(i) ==> i + 1 < r.resources ==> n
                == WorkerAction::TearDown((i + 1) as usize)
            &&& (r.action is Body && r.resources == 0) || (r.action matches WorkerAction::TearDown(
                i,
            ) && i + 1 == r.resources) ==> (n is FinishCapture <==> r.has_capture) && (n is Report
                <==> !r.has_capture)
            &&& r.action is FinishCapture ==> n is Report
        }),
{
}

/// A batch is written as soon as it is full, and what waits is written with a tick and at
/// the end. Records and log rows do not wait for each other.
pub proof fn lemma_flushed(events: Seq<u64>, logs: Seq<u64>, m: WriterMsg)
    ensures
        ({
            let f = flushed(events, logs, m);
            &&& m matches WriterMsg::Event(e) ==> {
                &&& events.len() + 1 >= BATCH_SIZE ==> f == seq![FlushView::Events(events.push(e))]
                    && events_left(events, m).len() == 0
                &&& events.len() + 1 < BATCH_SIZE ==> f.len() == 0 && events_left(events, m)
                    == events.push(e)
                &&& logs_left(logs, m) == logs
            }
            &&& m matches WriterMsg::Log(l) ==> {
                &&& logs.len() + 1 >= BATCH_SIZE ==> f == seq![FlushView::Logs(logs.push(l))]
                    && logs_left(logs, m).len() == 0
                &&& logs.len() + 1 < BATCH_SIZE ==> f.len() == 0 && logs_left(logs, m)
                    == logs.push(l)
                &&& events_left(events, m) == events
            }
            &&& m is Tick || m is Closed ==> {
                &&& events_left(events, m).len() == 0 && logs_left(logs, m).len() == 0
                &&& f.contains(FlushView::Events(events)) <==> events.len() > 0
                &&& f.contains(FlushView::Logs(logs)) <==> logs.len() > 0
            }
        }),
{
    let f = flushed(events, logs, m);
    if m is Tick || m is Closed {
        if events.len() > 0 {
            assert(f[0] == FlushView::Events(events));
        }
        if logs.len() > 0 {
            assert(f[f.len() - 1] == FlushView::Logs(logs));
        }
    }
}

/// Claimed slots are recorded with the names of the pools, and a wait with its reason.
pub proof fn lemma_pool_records(
    origin: OriginView,
    step: Seq<char>,
    pools: Seq<(Seq<char>, u32)>,
    reason: Seq<char>,
    ts: i64,
)
    ensures
        claimed_event(origin, step, pools, ts) == (EventView {
            metadata: seq![
                (
                    "pools"@,
                    joined(pools.map_values(|p: (Seq<char>, u32)| p.0), ","@),
                ),
            ],
            ..plain_event(TypeView::StepSlotClaimed, origin, step, ts)
        }),
        waiting_event(origin, step, reason, ts) == (EventView {
            metadata: seq![("reason"@, reason)],
            ..plain_event(TypeView::StepSlotWaiting, origin, step, ts)
        }),
{
}

/// A run that was cancelled ends as cancelled, whatever else happened in it; any other
/// ends by whether it went well.
pub proof fn lemma_final_status(cancelled: bool, success: bool)
    ensures
        final_status(cancelled, success) is Canceled <==> cancelled,
        final_status(cancelled, success) is Success <==> !cancelled && success,
        final_status(cancelled, success) is Failure <==> !cancelled && !success,
{
}

/// The failures of a run are reported in order, each under its name with its text.
pub proof fn lemma_failed_texts(v: Seq<(Seq<char>, ErrView)>)
    ensures
        failed_texts(v).len() == v.len(),
        forall|i: int|
            0 <= i < v.len() ==> (#[trigger] failed_texts(v)[i]).0 == v[i].0 && failed_texts(
                v,
            )[i].1 == v[i].1.1,
{
}

/// The collecting steps of a plan that a step depends on stand in the order of the plan,
/// each with the instances that its mapped step has left.
pub proof fn lemma_collected_in_plan(
    b: BatchView,
    steps: Seq<ExecutionStep>,
    deps: Seq<Seq<char>>,
)
    ensures
        collected_in_plan(b, steps, deps) == steps.filter(
            |s: ExecutionStep| deps.contains(s.name@) && (s.kind is Collect || s.kind
                is CollectStream),
        ).map_values(|s: ExecutionStep| collected_by(b, s)->0),
    decreases steps.len(),
{
    reveal(Seq::filter);
    let p = |s: ExecutionStep|
        deps.contains(s.name@) && (s.kind is Collect || s.kind is CollectStream);
    let f = |s: ExecutionStep| collected_by(b, s)->0;
    if steps.len() > 0 {
        let w = steps.drop_last();
        lemma_collected_in_plan(b, w, deps);
        if p(steps.last()) {
            assert(steps.filter(p).map_values(f) =~= w.filter(p).map_values(f).push(
                f(steps.last()),
            ));
        }
    } else {
        assert(steps.filter(p).map_values(f) =~= Seq::empty());
    }
}

/// What a collecting step collects is the same whether it is found by its name or met in
/// the plan.
pub proof fn lemma_collected_alike(b: BatchView, steps: Seq<ExecutionStep>, i: int)
    requires
        0 <= i < steps.len(),
        forall|j: int| i < j < steps.len() ==> (#[trigger] steps[j]).name@ != steps[i].name@,
    ensures
        collect_of(b, steps, steps[i].name@) == collected_by(b, steps[i]),
    decreases steps.len(),
{
    if i < steps.len() - 1 {
        let w = steps.drop_last();
        assert(steps[steps.len() - 1].name@ != steps[i].name@);
        assert(w[i] == steps[i]);
        assert forall|j: int| i < j < w.len() implies (#[trigger] w[j]).name@ != w[i].name@ by {
            assert(w[j] == steps[j]);
        }
        lemma_collected_alike(b, w, i);
    }
}

/// The outputs of a step are written under their names, each with the partition that its
/// own node gives the run's key; one that no node describes is a fault, and so is one whose
/// node refuses the key.
pub proof fn lemma_multi_specs(
    outputs: Seq<Seq<char>>,
    nodes: Map<Seq<char>, NodeInfo>,
    key: Option<KeyView>,
    facts: KeyFacts,
)
    ensures
        ({
            let r = multi_specs(outputs, nodes, key, facts);
            &&& r is Ok ==> r->Ok_0.len() == outputs.len() && forall|i: int|
                0 <= i < outputs.len() ==> {
                    &&& nodes.dom().contains(#[trigger] outputs[i])
                    &&& r->Ok_0[i].0 == outputs[i]
                    &&& context_of(
                        shown_name(nodes[outputs[i]], outputs[i]),
                        node_def(nodes[outputs[i]]),
                        key,
                        true,
                        facts,
                    ) is Ok
                    &&& context_of(
                        shown_name(nodes[outputs[i]], outputs[i]),
                        node_def(nodes[outputs[i]]),
                        key,
                        true,
                        facts,
                    )->Ok_0 == r->Ok_0[i].1
                }
            &&& r is Err ==> exists|i: int|
                0 <= i < outputs.len() && (!nodes.dom().contains(#[trigger] outputs[i])
                    || context_of(
                    shown_name(nodes[outputs[i]], outputs[i]),
                    node_def(nodes[outputs[i]]),
                    key,
                    true,
                    facts,
                ) is Err)
        }),
    decreases outputs.len(),
{
    if outputs.len() > 0 {
        let w = outputs.drop_last();
        lemma_multi_specs(w, nodes, key, facts);
        let r = multi_specs(outputs, nodes, key, facts);
        let q = multi_specs(w, nodes, key, facts);
        if r is Ok {
            assert forall|i: int| 0 <= i < outputs.len() implies {
                &&& nodes.dom().contains(#[trigger] outputs[i])
                &&& r->Ok_0[i].0 == outputs[i]
                &&& context_of(
                    shown_name(nodes[outputs[i]], outputs[i]),
                    node_def(nodes[outputs[i]]),
                    key,
                    true,
                    facts,
                ) is Ok
                &&& context_of(
                    shown_name(nodes[outputs[i]], outputs[i]),
                    node_def(nodes[outputs[i]]),
                    key,
                    true,
                    facts,
                )->Ok_0 == r->Ok_0[i].1
            } by {
                if i < w.len() {
                    assert(w[i] == outputs[i]);
                    assert(nodes.dom().contains(w[i]));
                }
            }
        } else if q is Err {
            let i = choose|i: int|
                0 <= i < w.len() && (!nodes.dom().contains(#[trigger] w[i]) || context_of(
                    shown_name(nodes[w[i]], w[i]),
                    node_def(nodes[w[i]]),
                    key,
                    true,
                    facts,
                ) is Err);
            assert(outputs[i] == w[i]);
        } else {
            assert(outputs[outputs.len() - 1] == outputs.last());
        }
    }
}

/// The instances that were not let in are those from the next one on, each once.
pub proof fn lemma_rest(from: int, to: int, n: usize)
    requires
        0 <= from <= to <= usize::MAX,
    ensures
        rest_of(from, to).contains(n) <==> from <= n < to,
        rest_of(from, to).len() == to - from,
{
    let r = rest_of(from, to);
    if from <= n < to {
        assert(r[n - from] == n);
    }
}

/// A node is shown under its own name, where it has one.
pub proof fn lemma_shown_name(n: NodeInfo, name: Seq<char>)
    ensures
        n.name is Some ==> shown_name(n, name) == n.name->0@,
        n.name is None ==> shown_name(n, name) == name,
{
}

} // verus!
