//! How a plan is carried out level by level: which executor a step goes to, what is left
//! undone, and what fails for want of an executor.
use vstd::prelude::*;
use crate::errors::{fault_text, FaultKind};
use crate::executor::batch::{BatchView, EffectView};
use crate::executor::classify_laws::lemma_split_of;
use crate::executor::events::{plain_event, TypeView};
use crate::executor::obj::Obj;
use crate::executor::plan::{event_names_of, ExecutionStep, NodeInfo};
use crate::executor::plan_run::{
    deferred_names, executor_key_of, final_nodes_of, group_at, group_executor, group_unrunnable,
    groups_unrunnable, level_groups, meta_value, names_unrunnable, plan_names, plan_reads,
    runnable_at, steps_from, Group,
};
use crate::text::{split_at_first, texts};

verus! {

/// What a node says of its executor: a value of its metadata, where it has one.
pub proof fn lemma_meta_value(nodes: Map<Seq<char>, NodeInfo>, node: Seq<char>, key: Seq<char>)
    ensures
        meta_value(nodes, node, key) is Some <==> nodes.dom().contains(node)
            && nodes[node].metadata is Some && nodes[node].metadata->0@.dom().contains(key),
        meta_value(nodes, node, key) is Some ==> meta_value(nodes, node, key)->0
            == nodes[node].metadata->0@[key]@,
{
}

/// A step goes to the executor that its node names, and to the run's own where it names
/// none. An inner task of a graph asset goes by the asset, and there first by the executor
/// that the asset names for its tasks.
pub proof fn lemma_executor_key(
    nodes: Map<Seq<char>, NodeInfo>,
    step: Seq<char>,
    graph: Seq<char>,
    task: Seq<char>,
)
    ensures
        ({
            let r = executor_key_of(nodes, step);
            let own = meta_value(nodes, step, "rivers/executor"@);
            let outer = meta_value(nodes, graph, "rivers/executor"@);
            let inner = meta_value(nodes, graph, "rivers/node/executor"@);
            &&& !step.contains('/') ==> {
                &&& own matches Some(k) ==> r == k
                &&& own is None ==> r == "__default__"@
            }
            &&& step == graph + seq!['/'] + task && !graph.contains('/') ==> {
                &&& inner matches Some(k) ==> r == k
                &&& inner is None ==> {
                    &&& outer matches Some(k) ==> r == k
                    &&& outer is None ==> r == "__default__"@
                }
            }
        }),
{
    step.index_of_first_ensures('/');
    if !step.contains('/') {
        assert(split_at_first(step, '/') is None);
    }
    if step == graph + seq!['/'] + task && !graph.contains('/') {
        lemma_split_of(graph, task, '/');
    }
}

/// The steps of a level that go to an executor.
pub open spec fn steps_for(
    nodes: Map<Seq<char>, NodeInfo>,
    steps: Seq<ExecutionStep>,
    level: Seq<usize>,
    key: Seq<char>,
) -> Seq<int> {
    level.filter(|i: usize| executor_key_of(nodes, steps[i as int].name@) == key).map_values(
        |i: usize| i as int,
    )
}

proof fn lemma_at(groups: Seq<Group>, key: Seq<char>)
    ensures
        -1 <= group_at(groups, key) < groups.len(),
        group_at(groups, key) >= 0 ==> groups[group_at(groups, key)].0 == key,
        group_at(groups, key) < 0 ==> forall|i: int|
            0 <= i < groups.len() ==> (#[trigger] groups[i]).0 != key,
    decreases groups.len(),
{
    if groups.len() > 0 && groups.last().0 != key {
        let w = groups.drop_last();
        lemma_at(w, key);
        if group_at(groups, key) < 0 {
            assert forall|i: int| 0 <= i < groups.len() implies (#[trigger] groups[i]).0
                != key by {
                if i < w.len() {
                    assert(w[i].0 != key);
                }
            }
        }
    }
}

/// The group of an executor has all steps of the level that go to it, in their order, and
/// at least one. Every step is in a group, and no executor has two.
pub proof fn lemma_groups(
    nodes: Map<Seq<char>, NodeInfo>,
    steps: Seq<ExecutionStep>,
    level: Seq<usize>,
)
    ensures
        ({
            let r = level_groups(nodes, steps, level);
            &&& forall|g: int|
                0 <= g < r.len() ==> (#[trigger] r[g]).1 == steps_for(nodes, steps, level, r[g].0)
                    && r[g].1.len() > 0
            &&& forall|g: int, h: int|
                0 <= g < h < r.len() ==> (#[trigger] r[g]).0 != (#[trigger] r[h]).0
            &&& forall|i: int|
                0 <= i < level.len() ==> exists|g: int|
                    0 <= g < r.len() && (#[trigger] r[g]).0 == executor_key_of(
                        nodes,
                        steps[(#[trigger] level[i]) as int].name@,
                    )
        }),
    decreases level.len(),
{
    reveal(Seq::filter);
    if level.len() > 0 {
        let w = level.drop_last();
        let before = level_groups(nodes, steps, w);
        let r = level_groups(nodes, steps, level);
        let idx = level.last() as int;
        let key = executor_key_of(nodes, steps[idx].name@);
        lemma_groups(nodes, steps, w);
        lemma_at(before, key);
        let at = group_at(before, key);
        assert forall|k: Seq<char>| #[trigger] steps_for(nodes, steps, level, k) == if k == key {
            steps_for(nodes, steps, w, k).push(idx)
        } else {
            steps_for(nodes, steps, w, k)
        } by {
            let p = |i: usize| executor_key_of(nodes, steps[i as int].name@) == k;
            let f = |i: usize| i as int;
            if p(level.last()) {
                assert(level.filter(p) == w.filter(p).push(level.last()));
                assert(steps_for(nodes, steps, level, k) =~= steps_for(nodes, steps, w, k).push(
                    idx,
                ));
            } else {
                assert(level.filter(p) == w.filter(p));
            }
        }
        if at < 0 {
            let p = |i: usize| executor_key_of(nodes, steps[i as int].name@) == key;
            if steps_for(nodes, steps, w, key).len() > 0 {
                let kept = w.filter(p);
                assert(kept.len() > 0);
                w.lemma_filter_contains_rev(p, kept[0]);
                assert(w.contains(kept[0]));
                let i = choose|i: int| 0 <= i < w.len() && w[i] == kept[0];
                w.lemma_filter_pred(p, 0);
                let g = choose|g: int|
                    0 <= g < before.len() && (#[trigger] before[g]).0 == executor_key_of(
                        nodes,
                        steps[w[i] as int].name@,
                    );
                assert(before[g].0 == key);
            }
            assert(steps_for(nodes, steps, w, key) =~= Seq::empty());
            assert(seq![idx] =~= Seq::<int>::empty().push(idx));
        }
        assert forall|g: int| 0 <= g < r.len() implies (#[trigger] r[g]).1 == steps_for(
            nodes,
            steps,
            level,
            r[g].0,
        ) && r[g].1.len() > 0 by {
            if g < before.len() {
                assert(before[g].1 == steps_for(nodes, steps, w, before[g].0));
                if g != at && at >= 0 {
                    if g < at {
                        assert(before[g].0 != before[at].0);
                    } else {
                        assert(before[at].0 != before[g].0);
                    }
                }
            }
        }
        assert forall|g: int, h: int| 0 <= g < h < r.len() implies (#[trigger] r[g]).0 != (
        #[trigger] r[h]).0 by {
            if h < before.len() {
                assert(before[g].0 != before[h].0);
            } else {
                assert(before[g].0 != key);
            }
        }
        assert forall|i: int| 0 <= i < level.len() implies exists|g: int|
            0 <= g < r.len() && (#[trigger] r[g]).0 == executor_key_of(
                nodes,
                steps[(#[trigger] level[i]) as int].name@,
            ) by {
            if i < w.len() {
                assert(w[i] == level[i]);
                let g = choose|g: int|
                    0 <= g < before.len() && (#[trigger] before[g]).0 == executor_key_of(
                        nodes,
                        steps[w[i] as int].name@,
                    );
                assert(r[g].0 == before[g].0);
            } else if at >= 0 {
                assert(r[at].0 == key);
            } else {
                assert(r[before.len() as int].0 == key);
            }
        }
    }
}

/// The groups stand in the order in which the level first names their executors: a step
/// more in a level moves no group.
pub proof fn lemma_groups_in_order(
    nodes: Map<Seq<char>, NodeInfo>,
    steps: Seq<ExecutionStep>,
    level: Seq<usize>,
    i: usize,
)
    ensures
        ({
            let before = level_groups(nodes, steps, level);
            let after = level_groups(nodes, steps, level.push(i));
            &&& before.len() <= after.len() <= before.len() + 1
            &&& forall|g: int| 0 <= g < before.len() ==> (#[trigger] after[g]).0 == before[g].0
        }),
{
    assert(level.push(i).drop_last() =~= level);
    let before = level_groups(nodes, steps, level);
    lemma_at(before, executor_key_of(nodes, steps[i as int].name@));
}

/// A plan produces the names of its steps and their outputs.
pub proof fn lemma_plan_names(steps: Seq<ExecutionStep>)
    ensures
        forall|n: Seq<char>| #[trigger]
            plan_names(steps).contains(n) <==> exists|i: int|
                0 <= i < steps.len() && ((#[trigger] steps[i]).name@ == n || texts(
                    steps[i].outputs@,
                ).contains(n)),
    decreases steps.len(),
{
    if steps.len() > 0 {
        let w = steps.drop_last();
        lemma_plan_names(w);
        assert forall|n: Seq<char>| #[trigger] plan_names(steps).contains(n) <==> exists|i: int|
            0 <= i < steps.len() && ((#[trigger] steps[i]).name@ == n || texts(
                steps[i].outputs@,
            ).contains(n)) by {
            assert(texts(steps.last().outputs@).to_set().contains(n) == texts(
                steps.last().outputs@,
            ).contains(n));
            if plan_names(w).contains(n) {
                let i = choose|i: int|
                    0 <= i < w.len() && ((#[trigger] w[i]).name@ == n || texts(
                        w[i].outputs@,
                    ).contains(n));
                assert(steps[i] == w[i]);
            }
            assert(steps[steps.len() - 1] == steps.last());
            if exists|i: int|
                0 <= i < steps.len() && ((#[trigger] steps[i]).name@ == n || texts(
                    steps[i].outputs@,
                ).contains(n)) {
                let i = choose|i: int|
                    0 <= i < steps.len() && ((#[trigger] steps[i]).name@ == n || texts(
                        steps[i].outputs@,
                    ).contains(n));
                if i < w.len() {
                    assert(w[i] == steps[i]);
                }
            }
        }
    }
}

/// A plan reads what one of its steps depends on in the graph.
pub proof fn lemma_plan_reads(steps: Seq<ExecutionStep>)
    ensures
        forall|n: Seq<char>| #[trigger]
            plan_reads(steps).contains(n) <==> exists|i: int|
                0 <= i < steps.len() && texts(
                    (#[trigger] steps[i]).graph_dependencies@,
                ).contains(n),
    decreases steps.len(),
{
    if steps.len() > 0 {
        let w = steps.drop_last();
        lemma_plan_reads(w);
        assert forall|n: Seq<char>| #[trigger] plan_reads(steps).contains(n) <==> exists|i: int|
            0 <= i < steps.len() && texts((#[trigger] steps[i]).graph_dependencies@).contains(
                n,
            ) by {
            assert(texts(steps.last().graph_dependencies@).to_set().contains(n) == texts(
                steps.last().graph_dependencies@,
            ).contains(n));
            if plan_reads(w).contains(n) {
                let i = choose|i: int|
                    0 <= i < w.len() && texts((#[trigger] w[i]).graph_dependencies@).contains(n);
                assert(steps[i] == w[i]);
            }
            assert(steps[steps.len() - 1] == steps.last());
            if exists|i: int|
                0 <= i < steps.len() && texts((#[trigger] steps[i]).graph_dependencies@).contains(
                    n,
                ) {
                let i = choose|i: int|
                    0 <= i < steps.len() && texts(
                        (#[trigger] steps[i]).graph_dependencies@,
                    ).contains(n);
                if i < w.len() {
                    assert(w[i] == steps[i]);
                }
            }
        }
    }
}

/// A cancelled run leaves the steps that were neither completed nor failed, in their order.
pub proof fn lemma_deferred(
    steps: Seq<ExecutionStep>,
    idx: Seq<usize>,
    completed: Set<Seq<char>>,
    failed: Set<Seq<char>>,
)
    ensures
        deferred_names(steps, idx, completed, failed) == idx.map_values(
            |i: usize| steps[i as int].name@,
        ).filter(|n: Seq<char>| !completed.contains(n) && !failed.contains(n)),
    decreases idx.len(),
{
    reveal(Seq::filter);
    let f = |i: usize| steps[i as int].name@;
    let p = |n: Seq<char>| !completed.contains(n) && !failed.contains(n);
    if idx.len() > 0 {
        let w = idx.drop_last();
        lemma_deferred(steps, w, completed, failed);
        assert(idx.map_values(f).drop_last() =~= w.map_values(f));
        assert(idx.map_values(f).last() == f(idx.last()));
    } else {
        assert(idx.map_values(f) =~= Seq::empty());
    }
}

/// The steps from a level on are those of the level and then of each later one.
pub proof fn lemma_steps_from(levels: Seq<Vec<usize>>, n: int)
    requires
        0 <= n <= levels.len(),
    ensures
        steps_from(levels, n) == levels.skip(n).map_values(|l: Vec<usize>| l@).flatten(),
    decreases levels.len() - n,
{
    let f = |l: Vec<usize>| l@;
    let all = levels.skip(n).map_values(f);
    if n < levels.len() {
        lemma_steps_from(levels, n + 1);
        assert(all.drop_first() =~= levels.skip(n + 1).map_values(f));
        assert(all.first() == levels[n]@);
    } else {
        assert(all =~= Seq::empty());
    }
}

/// The graph asset of a last task is the one that names the task as its last; where
/// several do, the last of these.
pub proof fn lemma_final_nodes(s: Seq<(String, NodeInfo)>, task: Seq<char>)
    ensures
        final_nodes_of(s).dom().contains(task) <==> exists|i: int|
            0 <= i < s.len() && (#[trigger] s[i]).1.final_node is Some && s[i].1.final_node->0@
                == task,
        final_nodes_of(s).dom().contains(task) ==> exists|i: int|
            0 <= i < s.len() && (#[trigger] s[i]).1.final_node is Some && s[i].1.final_node->0@
                == task && final_nodes_of(s)[task] == s[i].0@ && forall|j: int|
                i < j < s.len() && (#[trigger] s[j]).1.final_node is Some
                    ==> s[j].1.final_node->0@ != task,
    decreases s.len(),
{
    if s.len() > 0 {
        let w = s.drop_last();
        lemma_final_nodes(w, task);
        if s.last().1.final_node is Some && s.last().1.final_node->0@ == task {
            assert(s[s.len() - 1].1.final_node is Some);
        } else {
            if final_nodes_of(w).dom().contains(task) {
                let i = choose|i: int|
                    0 <= i < w.len() && (#[trigger] w[i]).1.final_node is Some
                        && w[i].1.final_node->0@ == task && final_nodes_of(w)[task] == w[i].0@
                        && forall|j: int|
                        i < j < w.len() && (#[trigger] w[j]).1.final_node is Some
                            ==> w[j].1.final_node->0@ != task;
                assert(s[i] == w[i]);
                assert forall|j: int|
                    i < j < s.len() && (#[trigger] s[j]).1.final_node is Some implies
                    s[j].1.final_node->0@ != task by {
                    if j < w.len() {
                        assert(w[j] == s[j]);
                    }
                }
            }
            if exists|i: int|
                0 <= i < s.len() && (#[trigger] s[i]).1.final_node is Some
                    && s[i].1.final_node->0@ == task {
                let i = choose|i: int|
                    0 <= i < s.len() && (#[trigger] s[i]).1.final_node is Some
                        && s[i].1.final_node->0@ == task;
                assert(i < w.len());
                assert(w[i] == s[i]);
            }
        }
    }
}

/// Where no executor is known for a step, each of its names fails for that reason: with one
/// record without a class, and with a failure to report.
pub proof fn lemma_unrunnable(b: BatchView, names: Seq<Seq<char>>, msg: Seq<char>, ts: i64)
    ensures
        ({
            let r = names_unrunnable(b, names, msg, ts);
            &&& r == (BatchView {
                failed: r.failed,
                effects: b.effects + names.map_values(
                    |n: Seq<char>|
                        EffectView::Event(
                            plain_event(TypeView::StepFailure(msg, None), b.origin, n, ts),
                        ),
                ),
                failures: b.failures + names.map_values(
                    |n: Seq<char>|
                        (n, (None::<Obj>, fault_text((FaultKind::Configuration, msg)))),
                ),
                ..b
            })
            &&& forall|n: Seq<char>| #[trigger]
                r.failed.contains(n) <==> b.failed.contains(n) || names.contains(n)
        }),
    decreases names.len(),
{
    let f = |n: Seq<char>|
        EffectView::Event(plain_event(TypeView::StepFailure(msg, None), b.origin, n, ts));
    let g = |n: Seq<char>| (n, (None::<Obj>, fault_text((FaultKind::Configuration, msg))));
    let r = names_unrunnable(b, names, msg, ts);
    if names.len() > 0 {
        let w = names.drop_last();
        let q = names_unrunnable(b, w, msg, ts);
        lemma_unrunnable(b, w, msg, ts);
        assert(b.effects + names.map_values(f) =~= (b.effects + w.map_values(f)).push(
            f(names.last()),
        ));
        assert(b.failures + names.map_values(g) =~= (b.failures + w.map_values(g)).push(
            g(names.last()),
        ));
        assert forall|n: Seq<char>| #[trigger] r.failed.contains(n) <==> b.failed.contains(n)
            || names.contains(n) by {
            assert(q.failed.contains(n) <==> b.failed.contains(n) || w.contains(n));
            if w.contains(n) {
                let i = choose|i: int| 0 <= i < w.len() && w[i] == n;
                assert(names[i] == n);
            }
            assert(names[names.len() - 1] == names.last());
            if names.contains(n) {
                let i = choose|i: int| 0 <= i < names.len() && names[i] == n;
                if i < w.len() {
                    assert(w[i] == n);
                }
            }
        }
    } else {
        assert(b.effects + names.map_values(f) =~= b.effects);
        assert(b.failures + names.map_values(g) =~= b.failures);
    }
}

/// A group without an executor fails step by step, each under all of its names.
pub proof fn lemma_group_unrunnable(
    b: BatchView,
    steps: Seq<ExecutionStep>,
    group: Seq<usize>,
    i: usize,
    msg: Seq<char>,
    ts: i64,
)
    ensures
        group_unrunnable(b, steps, Seq::empty(), msg, ts) == b,
        group_unrunnable(b, steps, group.push(i), msg, ts) == names_unrunnable(
            group_unrunnable(b, steps, group, msg, ts),
            event_names_of(steps[i as int]),
            msg,
            ts,
        ),
{
    assert(group.push(i).drop_last() =~= group);
}

/// Groups without an executor fail one after the other, each for the reason that its own
/// key gives.
pub proof fn lemma_groups_unrunnable(
    b: BatchView,
    steps: Seq<ExecutionStep>,
    groups: Seq<(String, Vec<usize>)>,
    g: (String, Vec<usize>),
    available: usize,
    ts: i64,
)
    requires
        group_executor(g.0@, available) is Err,
    ensures
        groups_unrunnable(b, steps, Seq::empty(), available, ts) == b,
        groups_unrunnable(b, steps, groups.push(g), available, ts) == group_unrunnable(
            groups_unrunnable(b, steps, groups, available, ts),
            steps,
            g.1@,
            fault_text(group_executor(g.0@, available)->Err_0),
            ts,
        ),
{
    assert(groups.push(g).drop_last() =~= groups);
}

/// The group that is run next is the first whose executor is known.
pub proof fn lemma_runnable_at(groups: Seq<Group>, available: usize)
    ensures
        ({
            let n = runnable_at(groups, available);
            &&& 0 <= n <= groups.len()
            &&& forall|i: int|
                0 <= i < n ==> group_executor((#[trigger] groups[i]).0, available) is Err
            &&& n < groups.len() ==> group_executor(groups[n].0, available) is Ok
        }),
    decreases groups.len(),
{
    if groups.len() > 0 && group_executor(groups[0].0, available) is Err {
        let w = groups.drop_first();
        lemma_runnable_at(w, available);
        let n = runnable_at(groups, available);
        assert forall|i: int| 0 <= i < n implies group_executor(
            (#[trigger] groups[i]).0,
            available,
        ) is Err by {
            if i > 0 {
                assert(w[i - 1] == groups[i]);
            }
        }
    }
}

/// Steps that name no executor run under the run's own.
pub proof fn lemma_default_group(available: usize)
    ensures
        group_executor("__default__"@, available) is Ok,
        group_executor("__default__"@, available)->Ok_0 is None,
{
}

} // verus!
