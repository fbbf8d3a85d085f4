//! What is decided of a step before it runs: whether it runs at all, which pools it claims
//! and with what scope, and which policy it is retried under.
use vstd::prelude::*;
use crate::executor::batch::{execution_error, keyed_event, BatchView, EffectView};
use crate::executor::classify::{
    action_of, asset_pool, classified_step, exclusive_pools, exclusive_verb, first_compute,
    first_policy, implicit_pools, is_exclusive, node_compute, node_policy, own_pools, ref_policy,
    scope_of, scopes_conflict, skip_message, skipped_names, step_policy, step_scope, step_verdict,
    ScopeView, StepAction,
};
use crate::executor::events::{plain_event, EventView, TypeView};
use crate::executor::obj::{Obj, NONE_ID};
use crate::executor::plan::{
    action_in, event_names_of, some_exclusive, ActionInfo, ExecutionStep, NodeInfo, RetryRef,
};
use crate::executor::results::{failed_all, materialization, versions_of};
use crate::partitions::key::KeyView;
use crate::partitions::members::{display_of, members_of};
use crate::text::{split_at_first, texts};

verus! {

/// A text is split at the first of a character's places: the first part does not have the
/// character, and the parts make the text again. A text without it is not split.
pub proof fn lemma_split_at_first(s: Seq<char>, c: char)
    ensures
        match split_at_first(s, c) {
            Some((a, b)) => !a.contains(c) && a + seq![c] + b == s,
            None => !s.contains(c),
        },
{
    s.index_of_first_ensures(c);
    if s.contains(c) {
        let i = s.index_of_first(c)->0;
        let a = s.take(i);
        if a.contains(c) {
            let j = choose|j: int| 0 <= j < a.len() && a[j] == c;
            assert(s[j] == c);
        }
        assert(a + seq![c] + s.skip(i + 1) =~= s);
    } else {
        assert(split_at_first(s, c) is None);
    }
}

/// Whether a step that a step waits for has failed.
pub open spec fn waits_for_failed(b: BatchView, step: ExecutionStep) -> bool {
    exists|i: int|
        0 <= i < step.plan_dependencies@.len() && b.failed.contains(
            (#[trigger] step.plan_dependencies@[i])@,
        )
}

proof fn lemma_waits(b: BatchView, step: ExecutionStep)
    ensures
        crate::executor::classify::some_in(texts(step.plan_dependencies@), b.failed)
            <==> waits_for_failed(b, step),
{
    let t = texts(step.plan_dependencies@);
    if waits_for_failed(b, step) {
        let i = choose|i: int|
            0 <= i < step.plan_dependencies@.len() && b.failed.contains(
                (#[trigger] step.plan_dependencies@[i])@,
            );
        assert(b.failed.contains(t[i]));
    }
    if crate::executor::classify::some_in(t, b.failed) {
        let i = choose|i: int| 0 <= i < t.len() && b.failed.contains(#[trigger] t[i]);
        assert(t[i] == step.plan_dependencies@[i]@);
    }
}

/// A step is run exactly where it was not completed before, waits for no failed step, is
/// neither mapped nor collecting, and is no graph asset. It is fanned out exactly where it
/// is mapped and neither completed nor waiting for a failed step. Else there is nothing
/// left to do for it.
pub proof fn lemma_step_runs(
    b: BatchView,
    completed: Set<Seq<char>>,
    nodes: Map<Seq<char>, NodeInfo>,
    step: ExecutionStep,
    a: StepAction,
)
    requires
        action_of(a, step_verdict(b, completed, nodes, step), step),
    ensures
        a is Execute <==> !completed.contains(step.name@) && !waits_for_failed(b, step)
            && step.kind is Normal && !nodes[step.name@].is_graph_asset,
        a is Mapped <==> !completed.contains(step.name@) && !waits_for_failed(b, step)
            && step.kind is Mapped,
        a is Mapped ==> a->fan_out_source@ == step.kind->Mapped_fan_out_source@,
{
    lemma_waits(b, step);
}

/// A step that was completed before, a mapped one and one that failed already as a graph
/// asset leave the run as it is.
pub proof fn lemma_step_left(
    b: BatchView,
    completed: Set<Seq<char>>,
    nodes: Map<Seq<char>, NodeInfo>,
    step: ExecutionStep,
    ts: i64,
)
    ensures
        completed.contains(step.name@) ==> classified_step(b, completed, nodes, step, ts) == b,
        step.kind is Mapped && !waits_for_failed(b, step) ==> classified_step(
            b,
            completed,
            nodes,
            step,
            ts,
        ) == b,
        step.kind is Normal && !waits_for_failed(b, step) && nodes[step.name@].is_graph_asset
            && b.failed.contains(step.name@) ==> classified_step(b, completed, nodes, step, ts)
            == b,
{
    lemma_waits(b, step);
}

/// What a skipped step is reported with.
pub open spec fn skip_error() -> Seq<char> {
    "ExecutionError"@ + ": "@ + "Skipped: upstream dependency failed"@
}

/// The names of a skipped step fail one after the other, each with the same reason and
/// with a failure to report.
pub proof fn lemma_skipped(b: BatchView, names: Seq<Seq<char>>, ts: i64)
    ensures
        skipped_names(b, names, ts) == (BatchView {
            failures: b.failures + names.map_values(|n: Seq<char>| (n, (None, skip_error()))),
            ..failed_all(b, names, skip_error(), b.own_class, ts)
        }),
    decreases names.len(),
{
    let f = |n: Seq<char>| (n, (None::<Obj>, skip_error()));
    assert(execution_error(skip_message()) == (None::<Obj>, skip_error()));
    if names.len() > 0 {
        let w = names.drop_last();
        lemma_skipped(b, w, ts);
        lemma_failed_frame(b, w, skip_error(), b.own_class, ts);
        assert(b.failures + names.map_values(f) =~= (b.failures + w.map_values(f)).push(
            f(names.last()),
        ));
    } else {
        assert(b.failures + names.map_values(f) =~= b.failures);
    }
}

/// The failure of a list of names changes which names have failed and what is recorded,
/// and nothing else of a run.
pub proof fn lemma_failed_frame(
    b: BatchView,
    names: Seq<Seq<char>>,
    error: Seq<char>,
    class: crate::executor::events::ClassView,
    ts: i64,
)
    ensures
        ({
            let r = failed_all(b, names, error, class, ts);
            r == (BatchView { failed: r.failed, effects: r.effects, ..b })
        }),
    decreases names.len(),
{
    if names.len() > 0 {
        lemma_failed_frame(b, names.drop_last(), error, class, ts);
    }
}

/// A step that waits for a failed one fails under each of its names. For a graph asset
/// with failure hooks these follow, once; a step of another kind runs none.
pub proof fn lemma_step_skipped(
    b: BatchView,
    completed: Set<Seq<char>>,
    nodes: Map<Seq<char>, NodeInfo>,
    step: ExecutionStep,
    ts: i64,
)
    requires
        !completed.contains(step.name@),
        waits_for_failed(b, step),
    ensures
        ({
            let r = classified_step(b, completed, nodes, step, ts);
            let failed = skipped_names(b, event_names_of(step), ts);
            let hooked = nodes.dom().contains(step.name@) && nodes[step.name@].is_graph_asset
                && nodes[step.name@].has_failure_hooks;
            &&& !hooked ==> r == failed
            &&& hooked ==> r == (BatchView {
                effects: failed.effects.push(
                    EffectView::FailureHooks(
                        step.name@,
                        step.name@,
                        "Skipped: upstream dependency failed"@,
                        None,
                    ),
                ),
                ..failed
            })
        }),
{
    lemma_waits(b, step);
}

/// A collecting step leaves its start and its success, and nothing else.
pub proof fn lemma_step_collecting(
    b: BatchView,
    completed: Set<Seq<char>>,
    nodes: Map<Seq<char>, NodeInfo>,
    step: ExecutionStep,
    ts: i64,
)
    requires
        !completed.contains(step.name@),
        !waits_for_failed(b, step),
        step.kind is Collect || step.kind is CollectStream,
    ensures
        classified_step(b, completed, nodes, step, ts) == (BatchView {
            effects: b.effects.push(
                EffectView::Event(plain_event(TypeView::StepStart, b.origin, step.name@, ts)),
            ).push(EffectView::Event(plain_event(TypeView::StepSuccess, b.origin, step.name@, ts))),
            ..b
        }),
{
    lemma_waits(b, step);
}

/// A graph asset that has not failed is materialized without a data version of its own,
/// with the versions of what it reads, and succeeds; its success hooks, where it has any,
/// get no output.
pub proof fn lemma_step_graph_done(
    b: BatchView,
    completed: Set<Seq<char>>,
    nodes: Map<Seq<char>, NodeInfo>,
    step: ExecutionStep,
    ts: i64,
)
    requires
        !completed.contains(step.name@),
        !waits_for_failed(b, step),
        step.kind is Normal,
        nodes.dom().contains(step.name@),
        nodes[step.name@].is_graph_asset,
        !b.failed.contains(step.name@),
    ensures
        ({
            let r = classified_step(b, completed, nodes, step, ts);
            let record = EventView {
                origin: b.origin,
                kind: TypeView::Materialization(None),
                asset: step.name@,
                partition: None,
                ts,
                metadata: Seq::empty(),
                inputs: versions_of(b.versions, texts(step.graph_dependencies@)),
            };
            let written = keyed_event(b, step.name@, record).effects.push(
                EffectView::Event(plain_event(TypeView::StepSuccess, b.origin, step.name@, ts)),
            );
            &&& r == (BatchView { effects: r.effects, ..b })
            &&& nodes[step.name@].has_success_hooks ==> r.effects == written.push(
                EffectView::SuccessHooks(step.name@, step.name@, Obj(NONE_ID), None),
            )
            &&& !nodes[step.name@].has_success_hooks ==> r.effects == written
        }),
{
    lemma_waits(b, step);
    let record = EventView {
        origin: b.origin,
        kind: TypeView::Materialization(None),
        asset: step.name@,
        partition: None,
        ts,
        metadata: Seq::empty(),
        inputs: versions_of(b.versions, texts(step.graph_dependencies@)),
    };
    assert(record == materialization(
        b,
        step.name@,
        Seq::empty(),
        None,
        versions_of(b.versions, texts(step.graph_dependencies@)),
        ts,
    ));
    crate::executor::batch::lemma_keyed_event_frame(b, step.name@, record);
}

/// The first inner task of a graph asset that runs records the start of the asset; no
/// later one does, and a step that stands in no graph asset records nothing yet.
pub proof fn lemma_step_starts_graph(
    b: BatchView,
    completed: Set<Seq<char>>,
    nodes: Map<Seq<char>, NodeInfo>,
    step: ExecutionStep,
    graph: Seq<char>,
    task: Seq<char>,
    ts: i64,
)
    requires
        !completed.contains(step.name@),
        !waits_for_failed(b, step),
        step.kind is Normal,
        !nodes[step.name@].is_graph_asset,
    ensures
        ({
            let r = classified_step(b, completed, nodes, step, ts);
            &&& !step.name@.contains('/') ==> r == b
            &&& step.name@ == graph + seq!['/'] + task && !graph.contains('/') ==> {
                &&& b.started.contains(graph) ==> r == b
                &&& !b.started.contains(graph) ==> r == (BatchView {
                    started: b.started.insert(graph),
                    effects: b.effects.push(
                        EffectView::Event(plain_event(TypeView::StepStart, b.origin, graph, ts)),
                    ),
                    ..b
                })
            }
        }),
{
    lemma_waits(b, step);
    let s = step.name@;
    s.index_of_first_ensures('/');
    if !s.contains('/') {
        assert(split_at_first(s, '/') is None);
    }
    if s == graph + seq!['/'] + task && !graph.contains('/') {
        lemma_split_of(graph, task, '/');
    }
}

/// A text that is put together from two parts, the first without the character between
/// them, is split into these parts.
pub proof fn lemma_split_of(a: Seq<char>, b: Seq<char>, c: char)
    requires
        !a.contains(c),
    ensures
        split_at_first(a + seq![c] + b, c) == Some((a, b)),
{
    let s = a + seq![c] + b;
    s.index_of_first_ensures(c);
    assert(s[a.len() as int] == c);
    assert(s.contains(c));
    let i = s.index_of_first(c)->0;
    if i < a.len() {
        assert(a[i] == c);
    }
    assert(i == a.len());
    assert(s.take(i) =~= a);
    assert(s.skip(i + 1) =~= b);
}

/// The action of a verb is the first of a node's actions that has it.
pub proof fn lemma_first_action(s: Seq<ActionInfo>, verb: Seq<char>)
    ensures
        match action_in(s, verb) {
            Some(a) => exists|i: int|
                0 <= i < s.len() && #[trigger] s[i] == a && a.verb@ == verb && forall|j: int|
                    0 <= j < i ==> (#[trigger] s[j]).verb@ != verb,
            None => forall|i: int| 0 <= i < s.len() ==> (#[trigger] s[i]).verb@ != verb,
        },
    decreases s.len(),
{
    if s.len() > 0 {
        let w = s.drop_first();
        if s[0].verb@ == verb {
            assert(s[0] == action_in(s, verb)->0);
        } else {
            lemma_first_action(w, verb);
            match action_in(w, verb) {
                Some(a) => {
                    let i = choose|i: int|
                        0 <= i < w.len() && #[trigger] w[i] == a && a.verb@ == verb && forall|
                            j: int,
                        |
                            0 <= j < i ==> (#[trigger] w[j]).verb@ != verb;
                    assert(s[i + 1] == a);
                    assert forall|j: int| 0 <= j < i + 1 implies (#[trigger] s[j]).verb@
                        != verb by {
                        if j > 0 {
                            assert(w[j - 1].verb@ != verb);
                        }
                    }
                },
                None => {
                    assert forall|i: int| 0 <= i < s.len() implies (#[trigger] s[i]).verb@
                        != verb by {
                        if i > 0 {
                            assert(w[i - 1].verb@ != verb);
                        }
                    }
                },
            }
        }
    }
}

/// The pool that stands for an asset: different assets have different pools.
pub proof fn lemma_asset_pools_differ(a: Seq<char>, b: Seq<char>)
    ensures
        asset_pool(a) == asset_pool(b) <==> a == b,
        asset_pool(a) == "__asset__:"@ + a,
{
    let n = "__asset__:"@.len() as int;
    assert(asset_pool(a).skip(n) =~= a);
    assert(asset_pool(b).skip(n) =~= b);
}

/// Of a list of names each one with an exclusive action claims one slot of its pool, in
/// order.
pub proof fn lemma_exclusive_pools(nodes: Map<Seq<char>, NodeInfo>, names: Seq<Seq<char>>)
    ensures
        exclusive_pools(nodes, names) == names.filter(
            |n: Seq<char>| nodes.dom().contains(n) && some_exclusive(nodes[n].actions@),
        ).map_values(|n: Seq<char>| ("__asset__:"@ + n, 1u32)),
    decreases names.len(),
{
    reveal(Seq::filter);
    let p = |n: Seq<char>| nodes.dom().contains(n) && some_exclusive(nodes[n].actions@);
    let f = |n: Seq<char>| ("__asset__:"@ + n, 1u32);
    if names.len() > 0 {
        let w = names.drop_last();
        lemma_exclusive_pools(nodes, w);
        assert(p(names.last()) == is_exclusive(nodes, names.last()));
        if p(names.last()) {
            assert(names.filter(p).map_values(f) =~= w.filter(p).map_values(f).push(
                f(names.last()),
            ));
        }
    } else {
        assert(names.filter(p).map_values(f) =~= Seq::empty());
    }
}

/// A node asks for its own pools, each as it lists it.
pub proof fn lemma_own_pools(nodes: Map<Seq<char>, NodeInfo>, name: Seq<char>)
    ensures
        !nodes.dom().contains(name) ==> own_pools(nodes, name).len() == 0,
        nodes.dom().contains(name) ==> own_pools(nodes, name).len() == nodes[name].pools@.len()
            && forall|i: int|
            0 <= i < nodes[name].pools@.len() ==> #[trigger] own_pools(nodes, name)[i] == (
                nodes[name].pools@[i].0@,
                nodes[name].pools@[i].1,
            ),
{
}

/// An action claims the pool of its asset where it is exclusive, and none else. A
/// materialization claims those of its outputs and that of the graph asset it stands in,
/// as far as these have an exclusive action.
pub proof fn lemma_claimed_pools(
    nodes: Map<Seq<char>, NodeInfo>,
    verb: Option<Seq<char>>,
    step: ExecutionStep,
    graph: Seq<char>,
    task: Seq<char>,
)
    ensures
        ({
            let r = implicit_pools(nodes, verb, step);
            let outputs = exclusive_pools(nodes, event_names_of(step));
            &&& verb is Some ==> ({
                let action = action_in(nodes[step.name@].actions@, verb->0);
                let claims = nodes.dom().contains(step.name@) && action is Some
                    && action->0.exclusive;
                &&& claims ==> r == seq![("__asset__:"@ + step.name@, 1u32)]
                &&& !claims ==> r.len() == 0
            })
            &&& verb is None && !step.name@.contains('/') ==> r == outputs
            &&& verb is None && step.name@ == graph + seq!['/'] + task && !graph.contains('/')
                ==> {
                let inside = nodes.dom().contains(graph) && some_exclusive(nodes[graph].actions@);
                &&& inside ==> r == outputs.push(("__asset__:"@ + graph, 1u32))
                &&& !inside ==> r == outputs
            }
        }),
{
    let r = implicit_pools(nodes, verb, step);
    let outputs = exclusive_pools(nodes, event_names_of(step));
    let s = step.name@;
    s.index_of_first_ensures('/');
    if verb is None && !s.contains('/') {
        assert(split_at_first(s, '/') is None);
        assert(r =~= outputs);
    }
    if verb is None && s == graph + seq!['/'] + task && !graph.contains('/') {
        lemma_split_of(graph, task, '/');
        if is_exclusive(nodes, graph) {
            assert(r =~= outputs.push(("__asset__:"@ + graph, 1u32)));
        } else {
            assert(r =~= outputs);
        }
    }
}

/// An exclusive action on an asset and a materialization of it claim the same pool.
pub proof fn lemma_action_meets_materialization(
    nodes: Map<Seq<char>, NodeInfo>,
    verb: Seq<char>,
    action: ExecutionStep,
    step: ExecutionStep,
    i: int,
)
    requires
        exclusive_verb(nodes, action.name@, verb),
        0 <= i < event_names_of(step).len(),
        event_names_of(step)[i] == action.name@,
    ensures
        exists|p: Seq<char>|
            #![trigger asset_pool(p)]
            implicit_pools(nodes, Some(verb), action).contains((asset_pool(p), 1u32))
                && implicit_pools(nodes, None, step).contains((asset_pool(p), 1u32)),
{
    let names = event_names_of(step);
    let name = action.name@;
    let a = nodes[name].actions@;
    lemma_first_action(a, verb);
    let k = choose|k: int| 0 <= k < a.len() && #[trigger] a[k] == action_in(a, verb)->0;
    assert(a[k].exclusive);
    lemma_pool_of_name(nodes, names, i);
    let pools = exclusive_pools(nodes, names);
    let r = implicit_pools(nodes, None, step);
    let at = choose|at: int| 0 <= at < pools.len() && pools[at] == (asset_pool(name), 1u32);
    assert(r[at] == pools[at]);
    assert(implicit_pools(nodes, Some(verb), action)[0] == (asset_pool(name), 1u32));
    assert(implicit_pools(nodes, Some(verb), action).contains((asset_pool(name), 1u32)));
}

proof fn lemma_pool_of_name(nodes: Map<Seq<char>, NodeInfo>, names: Seq<Seq<char>>, i: int)
    requires
        0 <= i < names.len(),
        is_exclusive(nodes, names[i]),
    ensures
        exclusive_pools(nodes, names).contains((asset_pool(names[i]), 1u32)),
    decreases names.len(),
{
    let w = names.drop_last();
    let r = exclusive_pools(nodes, names);
    if i == names.len() - 1 {
        assert(r[r.len() - 1] == (asset_pool(names[i]), 1u32));
    } else {
        lemma_pool_of_name(nodes, w, i);
        let before = exclusive_pools(nodes, w);
        let at = choose|at: int| 0 <= at < before.len() && before[at] == (asset_pool(w[i]), 1u32);
        assert(r[at] == before[at]);
    }
}

/// The scope of a run is the display form of each member of its key. A run without a key,
/// or with a key of no members, touches the whole asset.
pub proof fn lemma_scope(partition: Option<KeyView>, exclusive: bool)
    ensures
        ({
            let r = scope_of(partition, exclusive);
            &&& r.1 == exclusive
            &&& partition is None ==> r.0 is None
            &&& partition is Some && members_of(partition->0).len() == 0 ==> r.0 is None
            &&& partition is Some && members_of(partition->0).len() > 0 ==> ({
                let ms = members_of(partition->0);
                &&& r.0 is Some
                &&& (r.0->0).len() == ms.len()
                &&& forall|i: int|
                    0 <= i < ms.len() ==> #[trigger] (r.0->0)[i] == display_of(ms[i])
            })
        }),
{
}

/// A step has a scope exactly where it claims an implicit pool. The scope excludes others
/// exactly for an action.
pub proof fn lemma_step_scope(
    b: BatchView,
    nodes: Map<Seq<char>, NodeInfo>,
    verb: Option<Seq<char>>,
    step: ExecutionStep,
)
    ensures
        step_scope(b, nodes, verb, step) is Some <==> implicit_pools(nodes, verb, step).len() > 0,
        step_scope(b, nodes, verb, step) is Some ==> step_scope(b, nodes, verb, step)->0
            == scope_of(b.partition, verb is Some),
{
}

/// Two scopes exclude each other only where one of them is exclusive. A scope that is the
/// whole asset meets every other; two lists of partitions meet in a partition that both
/// name. Which of the two came first does not matter.
pub proof fn lemma_scopes_conflict(a: ScopeView, b: ScopeView)
    ensures
        scopes_conflict(a, b) == scopes_conflict(b, a),
        !a.1 && !b.1 ==> !scopes_conflict(a, b),
        (a.1 || b.1) && (a.0 is None || b.0 is None) ==> scopes_conflict(a, b),
        (a.1 || b.1) && a.0 is Some && b.0 is Some ==> (scopes_conflict(a, b) <==> exists|
            k: Seq<char>,
        |
            (a.0->0).contains(k) && #[trigger] (b.0->0).contains(k)),
{
    if a.0 is Some && b.0 is Some && (a.1 || b.1) {
        let x = a.0->0;
        let y = b.0->0;
        if crate::executor::classify::share_a_text(x, y) {
            let (i, j) = choose|i: int, j: int|
                0 <= i < x.len() && 0 <= j < y.len() && #[trigger] x[i] == #[trigger] y[j];
            assert(x.contains(x[i]) && y.contains(x[i]));
            assert(y[j] == x[i]);
        }
        if exists|k: Seq<char>| x.contains(k) && #[trigger] y.contains(k) {
            let k = choose|k: Seq<char>| x.contains(k) && #[trigger] y.contains(k);
            let i = choose|i: int| 0 <= i < x.len() && x[i] == k;
            let j = choose|j: int| 0 <= j < y.len() && y[j] == k;
            assert(x[i] == y[j]);
            assert(crate::executor::classify::share_a_text(x, y));
            assert(y[j] == x[i]);
            assert(crate::executor::classify::share_a_text(y, x));
        }
        if crate::executor::classify::share_a_text(y, x) {
            let (i, j) = choose|i: int, j: int|
                0 <= i < y.len() && 0 <= j < x.len() && #[trigger] y[i] == #[trigger] x[j];
            assert(x[j] == y[i]);
            assert(crate::executor::classify::share_a_text(x, y));
        }
    }
}

/// The policy of a list of nodes is that of the first that has one.
pub proof fn lemma_first_policy(
    nodes: Map<Seq<char>, NodeInfo>,
    in_pod: bool,
    names: Seq<Seq<char>>,
)
    ensures
        match first_policy(nodes, in_pod, names) {
            Some(p) => exists|i: int|
                0 <= i < names.len() && node_policy(nodes, in_pod, #[trigger] names[i]) == Some(p)
                    && forall|j: int|
                    0 <= j < i ==> node_policy(nodes, in_pod, #[trigger] names[j]) is None,
            None => forall|i: int|
                0 <= i < names.len() ==> node_policy(nodes, in_pod, #[trigger] names[i]) is None,
        },
    decreases names.len(),
{
    if names.len() > 0 {
        let w = names.drop_last();
        lemma_first_policy(nodes, in_pod, w);
        match first_policy(nodes, in_pod, w) {
            Some(p) => {
                let i = choose|i: int|
                    0 <= i < w.len() && node_policy(nodes, in_pod, #[trigger] w[i]) == Some(p)
                        && forall|j: int|
                        0 <= j < i ==> node_policy(nodes, in_pod, #[trigger] w[j]) is None;
                assert(names[i] == w[i]);
                assert forall|j: int| 0 <= j < i implies node_policy(
                    nodes,
                    in_pod,
                    #[trigger] names[j],
                ) is None by {
                    assert(w[j] == names[j]);
                }
            },
            None => {
                assert forall|j: int| 0 <= j < names.len() - 1 implies node_policy(
                    nodes,
                    in_pod,
                    #[trigger] names[j],
                ) is None by {
                    assert(w[j] == names[j]);
                }
                assert(names[names.len() - 1] == names.last());
            },
        }
    }
}

/// Outside a step pod a node has the policy it declares; in one, none has any.
pub proof fn lemma_node_policy(nodes: Map<Seq<char>, NodeInfo>, in_pod: bool, name: Seq<char>)
    ensures
        in_pod || !nodes.dom().contains(name) ==> node_policy(nodes, in_pod, name) is None,
        !in_pod && nodes.dom().contains(name) ==> node_policy(nodes, in_pod, name)
            == nodes[name].retry,
{
}

/// A policy that is given in place counts as it is; one that is named is looked up, and a
/// name that is not known gives none.
pub proof fn lemma_ref_policy(r: RetryRef, named: Map<Seq<char>, u64>)
    ensures
        r is Inline ==> ref_policy(r, named) == Some(r->Inline_0),
        r is Named && named.dom().contains(r->Named_0@) ==> ref_policy(r, named) == Some(
            named[r->Named_0@],
        ),
        r is Named && !named.dom().contains(r->Named_0@) ==> ref_policy(r, named) is None,
{
}

/// An action is retried under its own policy alone, in a step pod as elsewhere. Another
/// step is retried under that of its node, and where that has none, under the first that
/// one of its outputs has; in a step pod it is not retried.
pub proof fn lemma_step_policy(
    nodes: Map<Seq<char>, NodeInfo>,
    named: Map<Seq<char>, u64>,
    verb: Option<Seq<char>>,
    in_pod: bool,
    step: ExecutionStep,
)
    ensures
        ({
            let r = step_policy(nodes, named, verb, in_pod, step);
            let action = action_in(nodes[step.name@].actions@, verb->0);
            let own = nodes.dom().contains(step.name@) && action is Some && action->0.retry is Some;
            &&& verb is Some && own ==> r == ref_policy(action->0.retry->0, named)
            &&& verb is Some && !own ==> r is None
            &&& verb is None && in_pod ==> r is None
            &&& verb is None && !in_pod && nodes.dom().contains(step.name@)
                && nodes[step.name@].retry is Some ==> r == nodes[step.name@].retry
            &&& verb is None && !in_pod && !(nodes.dom().contains(step.name@)
                && nodes[step.name@].retry is Some) ==> r == first_policy(
                nodes,
                false,
                texts(step.outputs@),
            )
        }),
{
    lemma_first_policy(nodes, in_pod, texts(step.outputs@));
}

/// The compute description of a list of nodes is that of the first that has one.
pub proof fn lemma_first_compute(nodes: Map<Seq<char>, NodeInfo>, names: Seq<Seq<char>>)
    ensures
        match first_compute(nodes, names) {
            Some(c) => exists|i: int|
                0 <= i < names.len() && nodes.dom().contains(#[trigger] names[i])
                    && nodes[names[i]].compute == Some(c) && forall|j: int|
                    0 <= j < i ==> node_compute(nodes, #[trigger] names[j]) is None,
            None => forall|i: int|
                0 <= i < names.len() && nodes.dom().contains(#[trigger] names[i])
                    ==> nodes[names[i]].compute is None,
        },
    decreases names.len(),
{
    if names.len() > 0 {
        let w = names.drop_first();
        match node_compute(nodes, names[0]) {
            Some(c) => {
                assert(nodes.dom().contains(names[0]) && nodes[names[0]].compute == Some(c));
            },
            None => {
                lemma_first_compute(nodes, w);
                match first_compute(nodes, w) {
                    Some(c) => {
                        let i = choose|i: int|
                            0 <= i < w.len() && nodes.dom().contains(#[trigger] w[i])
                                && nodes[w[i]].compute == Some(c) && forall|j: int|
                                0 <= j < i ==> node_compute(nodes, #[trigger] w[j]) is None;
                        assert(names[i + 1] == w[i]);
                        assert forall|j: int| 0 <= j < i + 1 implies node_compute(
                            nodes,
                            #[trigger] names[j],
                        ) is None by {
                            if j > 0 {
                                assert(w[j - 1] == names[j]);
                            }
                        }
                    },
                    None => {
                        assert forall|i: int|
                            0 <= i < names.len() && nodes.dom().contains(
                                #[trigger] names[i],
                            ) implies nodes[names[i]].compute is None by {
                            if i > 0 {
                                assert(w[i - 1] == names[i]);
                            }
                        }
                    },
                }
            },
        }
    }
}

} // verus!
