//! How a plan is executed: level by level, each level in groups of one executor,
//! past failures, until it is done or cancelled.
use vstd::prelude::*;
use vstd::string::*;
use crate::errors::{fault_text, Fault, FaultKind, FaultView};
use crate::executor::batch::{failed_step, with_failed, with_failure, Batch, BatchView, StepError};
use crate::executor::kind::{named_executor, Executor};
use crate::executor::plan::{event_names_of, ExecutionPlan, ExecutionStep, NodeInfo, NodeMap};
use crate::names::{NameMap, NameSet};
use crate::text::{same_text, split_at_first, split_once, texts};

verus! {

/// The key of the run's own executor.
pub open spec fn default_key() -> Seq<char> {
    "__default__"@
}

/// The node whose metadata says where a step runs: the graph asset of an inner task,
/// else the step's own.
pub open spec fn lookup_name(step: Seq<char>) -> Seq<char> {
    match split_at_first(step, '/') {
        Some((graph, _)) => graph,
        None => step,
    }
}

/// A value of a node's metadata.
pub open spec fn meta_value(
    nodes: Map<Seq<char>, NodeInfo>,
    node: Seq<char>,
    key: Seq<char>,
) -> Option<Seq<char>> {
    if nodes.dom().contains(node) {
        match nodes[node].metadata {
            Some(m) => if m@.dom().contains(key) {
                Some(m@[key]@)
            } else {
                None
            },
            None => None,
        }
    } else {
        None
    }
}

/// The key of the executor of a step. For an inner task of a graph asset the asset
/// may name one for its tasks.
pub open spec fn executor_key_of(nodes: Map<Seq<char>, NodeInfo>, step: Seq<char>) -> Seq<char> {
    let node = lookup_name(step);
    let inner = if split_at_first(step, '/') is Some {
        meta_value(nodes, node, "rivers/node/executor"@)
    } else {
        None
    };
    match inner {
        Some(k) => k,
        None => match meta_value(nodes, node, "rivers/executor"@) {
            Some(k) => k,
            None => default_key(),
        },
    }
}

fn metadata_value(nodes: &NodeMap, node: &str, key: &str) -> (r: Option<String>)
    ensures
        match r {
            Some(s) => meta_value(nodes@, node@, key@) == Some(s@),
            None => meta_value(nodes@, node@, key@) is None,
        },
{
    match nodes.get(node) {
        Some(n) => match &n.metadata {
            Some(m) => match m.get(key) {
                Some(v) => Some(v.clone()),
                None => None,
            },
            None => None,
        },
        None => None,
    }
}

/// The key of the executor of a step.
pub fn executor_key(nodes: &NodeMap, step: &str) -> (r: String)
    ensures
        r@ == executor_key_of(nodes@, step@),
{
    match split_once(step, '/') {
        Some((graph, _)) => match metadata_value(nodes, graph.as_str(), "rivers/node/executor") {
            Some(k) => k,
            None => match metadata_value(nodes, graph.as_str(), "rivers/executor") {
                Some(k) => k,
                None => "__default__".to_owned(),
            },
        },
        None => match metadata_value(nodes, step, "rivers/executor") {
            Some(k) => k,
            None => "__default__".to_owned(),
        },
    }
}

/// A group of steps of one executor.
pub type Group = (Seq<char>, Seq<int>);

/// Where the group of a key stands in a list.
pub open spec fn group_at(groups: Seq<Group>, key: Seq<char>) -> int
    decreases groups.len(),
{
    if groups.len() == 0 {
        -1
    } else if groups.last().0 == key {
        groups.len() - 1
    } else {
        group_at(groups.drop_last(), key)
    }
}

/// A list of groups with one more step.
pub open spec fn grouped_with(groups: Seq<Group>, key: Seq<char>, idx: int) -> Seq<Group> {
    let at = group_at(groups, key);
    if 0 <= at < groups.len() {
        groups.update(at, (key, groups[at].1.push(idx)))
    } else {
        groups.push((key, seq![idx]))
    }
}

/// The groups of a level: one for each executor, in the order in which the level
/// first names it.
pub open spec fn level_groups(
    nodes: Map<Seq<char>, NodeInfo>,
    steps: Seq<ExecutionStep>,
    level: Seq<usize>,
) -> Seq<Group>
    decreases level.len(),
{
    if level.len() == 0 {
        Seq::empty()
    } else {
        grouped_with(
            level_groups(nodes, steps, level.drop_last()),
            executor_key_of(nodes, steps[level.last() as int].name@),
            level.last() as int,
        )
    }
}

proof fn lemma_group_at(groups: Seq<Group>, key: Seq<char>)
    ensures
        -1 <= group_at(groups, key) < groups.len(),
        group_at(groups, key) >= 0 ==> groups[group_at(groups, key)].0 == key,
        group_at(groups, key) < 0 ==> forall|i: int|
            0 <= i < groups.len() ==> (#[trigger] groups[i]).0 != key,
    decreases groups.len(),
{
    if groups.len() > 0 && groups.last().0 != key {
        let w = groups.drop_last();
        lemma_group_at(w, key);
        if group_at(groups, key) < 0 {
            assert forall|i: int| 0 <= i < groups.len() implies (#[trigger] groups[i]).0
                != key by {
                if i < w.len() {
                    assert(w[i].0 != key);
                }
            }
        }
    }
}

/// How many steps a list of groups has.
pub open spec fn group_total(groups: Seq<Group>) -> nat
    decreases groups.len(),
{
    if groups.len() == 0 {
        0
    } else {
        group_total(groups.drop_last()) + groups.last().1.len()
    }
}

proof fn lemma_total_update(groups: Seq<Group>, i: int, g: Group)
    requires
        0 <= i < groups.len(),
    ensures
        group_total(groups.update(i, g)) == group_total(groups) - groups[i].1.len() + g.1.len(),
    decreases groups.len(),
{
    let t = groups.update(i, g);
    if i == groups.len() - 1 {
        assert(t.drop_last() =~= groups.drop_last());
    } else {
        lemma_total_update(groups.drop_last(), i, g);
        assert(t.drop_last() =~= groups.drop_last().update(i, g));
    }
}

/// Each step of a level is in the group of its executor and in no other; the groups
/// hold as many steps as the level, and no executor has two groups.
pub proof fn lemma_level_groups(
    nodes: Map<Seq<char>, NodeInfo>,
    steps: Seq<ExecutionStep>,
    level: Seq<usize>,
)
    ensures
        group_total(level_groups(nodes, steps, level)) == level.len(),
        forall|i: int, j: int|
            0 <= i < j < level_groups(nodes, steps, level).len() ==> (#[trigger] level_groups(
                nodes,
                steps,
                level,
            )[i]).0 != (#[trigger] level_groups(nodes, steps, level)[j]).0,
        forall|i: int, j: int|
            #![trigger level_groups(nodes, steps, level)[i].1[j]]
            0 <= i < level_groups(nodes, steps, level).len() && 0 <= j < level_groups(
                nodes,
                steps,
                level,
            )[i].1.len() ==> executor_key_of(
                nodes,
                steps[level_groups(nodes, steps, level)[i].1[j]].name@,
            ) == level_groups(nodes, steps, level)[i].0,
    decreases level.len(),
{
    if level.len() > 0 {
        let w = level.drop_last();
        let before = level_groups(nodes, steps, w);
        let idx = level.last() as int;
        let key = executor_key_of(nodes, steps[idx].name@);
        let after = level_groups(nodes, steps, level);
        lemma_level_groups(nodes, steps, w);
        lemma_group_at(before, key);
        let at = group_at(before, key);
        if at >= 0 {
            let g = (key, before[at].1.push(idx));
            lemma_total_update(before, at, g);
            assert forall|i: int, j: int| 0 <= i < j < after.len() implies (
            #[trigger] after[i]).0 != (#[trigger] after[j]).0 by {
                assert(before[i].0 != before[j].0);
            }
            assert forall|i: int, j: int|
                #![trigger after[i].1[j]]
                0 <= i < after.len() && 0 <= j < after[i].1.len() implies executor_key_of(
                nodes,
                steps[after[i].1[j]].name@,
            ) == after[i].0 by {
                if i == at {
                    if j < before[at].1.len() {
                        assert(before[at].1[j] == after[i].1[j]);
                    }
                } else {
                    assert(before[i].1[j] == after[i].1[j]);
                }
            }
        } else {
            assert(after.drop_last() =~= before);
            assert forall|i: int, j: int| 0 <= i < j < after.len() implies (
            #[trigger] after[i]).0 != (#[trigger] after[j]).0 by {
                if j < before.len() {
                    assert(before[i].0 != before[j].0);
                } else {
                    assert(before[i].0 != key);
                }
            }
            assert forall|i: int, j: int|
                #![trigger after[i].1[j]]
                0 <= i < after.len() && 0 <= j < after[i].1.len() implies executor_key_of(
                nodes,
                steps[after[i].1[j]].name@,
            ) == after[i].0 by {
                if i < before.len() {
                    assert(before[i].1[j] == after[i].1[j]);
                }
            }
        }
    }
}

/// The steps of a group as numbers.
pub open spec fn indices(v: Seq<usize>) -> Seq<int> {
    v.map_values(|i: usize| i as int)
}

/// What each group of a list is.
pub open spec fn groups_of(v: Seq<(String, Vec<usize>)>) -> Seq<Group> {
    v.map_values(|g: (String, Vec<usize>)| (g.0@, indices(g.1@)))
}

/// The groups of a level.
pub fn group_level(nodes: &NodeMap, plan: &ExecutionPlan, level: &Vec<usize>) -> (r: Vec<
    (String, Vec<usize>),
>)
    requires
        forall|i: int| 0 <= i < level@.len() ==> (#[trigger] level@[i]) < plan.steps@.len(),
    ensures
        groups_of(r@) == level_groups(nodes@, plan.steps@, level@),
        forall|i: int, j: int|
            #![trigger r@[i].1@[j]]
            0 <= i < r@.len() && 0 <= j < r@[i].1@.len() ==> r@[i].1@[j] < plan.steps@.len(),
{
    let ghost l = level@;
    let mut out: Vec<(String, Vec<usize>)> = Vec::new();
    let mut n: usize = 0;
    proof {
        assert(l.take(0) =~= Seq::empty());
        assert(groups_of(out@) =~= Seq::empty());
    }
    while n < level.len()
        invariant
            l == level@,
            forall|i: int| 0 <= i < l.len() ==> (#[trigger] l[i]) < plan.steps@.len(),
            n <= l.len(),
            groups_of(out@) == level_groups(nodes@, plan.steps@, l.take(n as int)),
            forall|i: int, j: int|
                #![trigger out@[i].1@[j]]
                0 <= i < out@.len() && 0 <= j < out@[i].1@.len() ==> out@[i].1@[j]
                    < plan.steps@.len(),
        decreases l.len() - n,
    {
        proof {
            assert(l.take(n + 1).drop_last() =~= l.take(n as int));
            assert(l.take(n + 1).last() == l[n as int]);
        }
        let idx: usize = level[n];
        let key = executor_key(nodes, plan.steps[idx].name.as_str());
        let ghost before = groups_of(out@);
        let mut at: usize = out.len();
        proof {
            assert(before.take(at as int) =~= before);
        }
        while at > 0 && !same_text(out[at - 1].0.as_str(), key.as_str())
            invariant
                before == groups_of(out@),
                at <= out@.len(),
                group_at(before, key@) == group_at(before.take(at as int), key@),
            decreases at,
        {
            proof {
                assert(before.take(at as int).drop_last() =~= before.take(at - 1));
                assert(before.take(at as int).last() == before[at - 1]);
            }
            at -= 1;
        }
        if at > 0 {
            proof {
                assert(before.take(at as int).drop_last() =~= before.take(at - 1));
                assert(before.take(at as int).last() == before[at - 1]);
                assert(group_at(before, key@) == at - 1);
            }
            let mut members: Vec<usize> = Vec::new();
            let ghost ov = out@;
            let ghost mv = ov[at - 1].1@;
            let mut j: usize = 0;
            while j < out[at - 1].1.len()
                invariant
                    0 < at <= out@.len(),
                    ov == out@,
                    mv == ov[at - 1].1@,
                    j <= mv.len(),
                    members@ == mv.take(j as int),
                decreases mv.len() - j,
            {
                members.push(out[at - 1].1[j]);
                proof {
                    assert(members@ =~= mv.take(j + 1));
                }
                j += 1;
            }
            proof {
                assert(members@ =~= mv);
            }
            members.push(idx);
            let ghost after = members@;
            out.set(at - 1, (key, members));
            proof {
                assert(indices(after) =~= indices(mv).push(idx as int));
                assert(groups_of(out@) =~= before.update(
                    at - 1,
                    (key@, before[at - 1].1.push(idx as int)),
                ));
                assert forall|i: int, j: int|
                    #![trigger out@[i].1@[j]]
                    0 <= i < out@.len() && 0 <= j < out@[i].1@.len() implies out@[i].1@[j]
                    < plan.steps@.len() by {
                    if i == at - 1 {
                        if j < mv.len() {
                            assert(ov[at - 1].1@[j] < plan.steps@.len());
                        }
                    } else {
                        assert(ov[i].1@[j] < plan.steps@.len());
                    }
                }
            }
        } else {
            proof {
                assert(before.take(0) =~= Seq::empty());
                assert(group_at(before, key@) == -1);
            }
            let mut members: Vec<usize> = Vec::new();
            members.push(idx);
            let ghost ov = out@;
            let ghost mv = members@;
            out.push((key, members));
            proof {
                assert(indices(mv) =~= seq![idx as int]);
                assert(groups_of(out@) =~= before.push((key@, seq![idx as int])));
                assert forall|i: int, j: int|
                    #![trigger out@[i].1@[j]]
                    0 <= i < out@.len() && 0 <= j < out@[i].1@.len() implies out@[i].1@[j]
                    < plan.steps@.len() by {
                    if i < ov.len() {
                        assert(ov[i].1@[j] < plan.steps@.len());
                    }
                }
            }
        }
        n += 1;
    }
    proof {
        assert(l.take(n as int) =~= l);
    }
    out
}

/// Whether some step of a list runs asynchronously.
pub open spec fn some_async(nodes: Map<Seq<char>, NodeInfo>, steps: Seq<ExecutionStep>) -> bool {
    exists|i: int|
        0 <= i < steps.len() && nodes.dom().contains((#[trigger] steps[i]).name@)
            && nodes[steps[i].name@].is_async
}

/// Whether a plan needs an event loop for asynchronous steps.
pub fn needs_bridge(nodes: &NodeMap, plan: &ExecutionPlan) -> (r: bool)
    ensures
        r == some_async(nodes@, plan.steps@),
{
    let mut i: usize = 0;
    while i < plan.steps.len()
        invariant
            i <= plan.steps@.len(),
            forall|j: int|
                0 <= j < i ==> !(nodes@.dom().contains((#[trigger] plan.steps@[j]).name@)
                    && nodes@[plan.steps@[j].name@].is_async),
        decreases plan.steps@.len() - i,
    {
        if let Some(n) = nodes.get(plan.steps[i].name.as_str()) {
            if n.is_async {
                proof {
                    assert(nodes@.dom().contains(plan.steps@[i as int].name@));
                }
                return true;
            }
        }
        i += 1;
    }
    false
}

/// The names under which the steps of a plan are known: their own and those of their
/// outputs.
pub open spec fn plan_names(steps: Seq<ExecutionStep>) -> Set<Seq<char>>
    decreases steps.len(),
{
    if steps.len() == 0 {
        Set::empty()
    } else {
        plan_names(steps.drop_last()).insert(steps.last().name@).union(
            texts(steps.last().outputs@).to_set(),
        )
    }
}

/// What the steps of a plan read from the graph.
pub open spec fn plan_reads(steps: Seq<ExecutionStep>) -> Set<Seq<char>>
    decreases steps.len(),
{
    if steps.len() == 0 {
        Set::empty()
    } else {
        plan_reads(steps.drop_last()).union(texts(steps.last().graph_dependencies@).to_set())
    }
}

/// What a plan reads and does not itself produce, each once.
pub fn external_deps(plan: &ExecutionPlan) -> (r: NameSet)
    ensures
        r@ == plan_reads(plan.steps@).difference(plan_names(plan.steps@)),
{
    let ghost s = plan.steps@;
    let mut names = NameSet::new();
    let mut i: usize = 0;
    proof {
        assert(s.take(0) =~= Seq::empty());
    }
    while i < plan.steps.len()
        invariant
            s == plan.steps@,
            i <= s.len(),
            names@ == plan_names(s.take(i as int)),
        decreases s.len() - i,
    {
        proof {
            assert(s.take(i + 1).drop_last() =~= s.take(i as int));
            assert(s.take(i + 1).last() == s[i as int]);
        }
        let _ = names.insert(plan.steps[i].name.clone());
        let ghost base = names@;
        let ghost outs = texts(s[i as int].outputs@);
        let mut j: usize = 0;
        proof {
            assert(base.union(outs.take(0).to_set()) =~= base);
        }
        while j < plan.steps[i].outputs.len()
            invariant
                s == plan.steps@,
                i < s.len(),
                outs == texts(s[i as int].outputs@),
                j <= outs.len(),
                names@ == base.union(outs.take(j as int).to_set()),
            decreases outs.len() - j,
        {
            let ghost x = outs[j as int];
            let _ = names.insert(plan.steps[i].outputs[j].clone());
            proof {
                lemma_take_set(outs, j as int);
                assert(names@ =~= base.union(outs.take(j + 1).to_set()));
            }
            j += 1;
        }
        proof {
            assert(outs.take(j as int) =~= outs);
        }
        i += 1;
    }
    proof {
        assert(s.take(i as int) =~= s);
    }
    let mut out = NameSet::new();
    let mut n: usize = 0;
    proof {
        assert(plan_reads(s.take(0)).difference(names@) =~= Set::empty()) by {
            assert(s.take(0) =~= Seq::empty());
        }
    }
    while n < plan.steps.len()
        invariant
            s == plan.steps@,
            n <= s.len(),
            names@ == plan_names(s),
            out@ == plan_reads(s.take(n as int)).difference(names@),
        decreases s.len() - n,
    {
        proof {
            assert(s.take(n + 1).drop_last() =~= s.take(n as int));
            assert(s.take(n + 1).last() == s[n as int]);
        }
        let ghost base = plan_reads(s.take(n as int));
        let ghost deps = texts(s[n as int].graph_dependencies@);
        let mut j: usize = 0;
        proof {
            assert(base.union(deps.take(0).to_set()) =~= base);
        }
        while j < plan.steps[n].graph_dependencies.len()
            invariant
                s == plan.steps@,
                n < s.len(),
                deps == texts(s[n as int].graph_dependencies@),
                j <= deps.len(),
                out@ == base.union(deps.take(j as int).to_set()).difference(names@),
            decreases deps.len() - j,
        {
            proof {
                lemma_take_set(deps, j as int);
                assert(deps[j as int] == plan.steps@[n as int].graph_dependencies@[j as int]@);
            }
            let ghost before = out@;
            if !names.contains(plan.steps[n].graph_dependencies[j].as_str()) {
                let _ = out.insert(plan.steps[n].graph_dependencies[j].clone());
                proof {
                    assert(out@ =~= base.union(deps.take(j + 1).to_set()).difference(names@));
                }
            } else {
                proof {
                    assert(out@ =~= base.union(deps.take(j + 1).to_set()).difference(names@));
                }
            }
            j += 1;
        }
        proof {
            assert(deps.take(j as int) =~= deps);
        }
        n += 1;
    }
    proof {
        assert(s.take(n as int) =~= s);
    }
    out
}

proof fn lemma_take_set(v: Seq<Seq<char>>, j: int)
    requires
        0 <= j < v.len(),
    ensures
        v.take(j + 1).to_set() == v.take(j).to_set().insert(v[j]),
{
    let a = v.take(j + 1);
    let b = v.take(j);
    assert forall|k: Seq<char>| a.to_set().contains(k) <==> b.to_set().insert(v[j]).contains(
        k,
    ) by {
        if a.contains(k) {
            let i = choose|i: int| 0 <= i < a.len() && a[i] == k;
            if i < j {
                assert(b[i] == k);
            }
        }
        if b.contains(k) {
            let i = choose|i: int| 0 <= i < b.len() && b[i] == k;
            assert(a[i] == k);
        }
        assert(a[j] == v[j]);
    }
    assert(a.to_set() =~= b.to_set().insert(v[j]));
}

/// The names of the steps of a list of levels that are neither completed nor failed.
pub open spec fn deferred_names(
    steps: Seq<ExecutionStep>,
    idx: Seq<usize>,
    completed: Set<Seq<char>>,
    failed: Set<Seq<char>>,
) -> Seq<Seq<char>>
    decreases idx.len(),
{
    if idx.len() == 0 {
        Seq::empty()
    } else {
        let rest = deferred_names(steps, idx.drop_last(), completed, failed);
        let name = steps[idx.last() as int].name@;
        if completed.contains(name) || failed.contains(name) {
            rest
        } else {
            rest.push(name)
        }
    }
}

/// The graph asset of each last task, of the first nodes of a list.
pub open spec fn final_nodes_of(s: Seq<(String, NodeInfo)>) -> Map<Seq<char>, Seq<char>>
    decreases s.len(),
{
    if s.len() == 0 {
        Map::empty()
    } else {
        match s.last().1.final_node {
            Some(f) => final_nodes_of(s.drop_last()).insert(f@, s.last().0@),
            None => final_nodes_of(s.drop_last()),
        }
    }
}

/// The graph asset of each last task.
pub fn final_nodes(nodes: &NodeMap) -> (r: NameMap<String>)
    ensures
        r.wf(),
        crate::executor::batch::text_map(r@) == final_nodes_of(nodes.entries@),
{
    let ghost s = nodes.entries@;
    let mut out: NameMap<String> = NameMap::new();
    let mut i: usize = 0;
    proof {
        assert(s.take(0) =~= Seq::empty());
        assert(crate::executor::batch::text_map(out@) =~= Map::empty());
    }
    while i < nodes.entries.len()
        invariant
            s == nodes.entries@,
            i <= s.len(),
            out.wf(),
            crate::executor::batch::text_map(out@) == final_nodes_of(s.take(i as int)),
        decreases s.len() - i,
    {
        proof {
            assert(s.take(i + 1).drop_last() =~= s.take(i as int));
            assert(s.take(i + 1).last() == s[i as int]);
        }
        match &nodes.entries[i].1.final_node {
            Some(f) => {
                let ghost before = out@;
                out.insert(f.clone(), nodes.entries[i].0.clone());
                proof {
                    assert(crate::executor::batch::text_map(out@)
                        =~= crate::executor::batch::text_map(before).insert(
                        f@,
                        s[i as int].0@,
                    ));
                }
            },
            None => {},
        }
        i += 1;
    }
    proof {
        assert(s.take(i as int) =~= s);
    }
    out
}

/// A run after the names of a step failed for want of an executor.
pub open spec fn names_unrunnable(
    b: BatchView,
    names: Seq<Seq<char>>,
    msg: Seq<char>,
    ts: i64,
) -> BatchView
    decreases names.len(),
{
    if names.len() == 0 {
        b
    } else {
        let before = names_unrunnable(b, names.drop_last(), msg, ts);
        with_failed(
            with_failure(
                failed_step(before, names.last(), msg, None, ts),
                names.last(),
                (None, fault_text((FaultKind::Configuration, msg))),
            ),
            names.last(),
        )
    }
}

/// A run after every step of a group failed for want of an executor.
pub open spec fn group_unrunnable(
    b: BatchView,
    steps: Seq<ExecutionStep>,
    group: Seq<usize>,
    msg: Seq<char>,
    ts: i64,
) -> BatchView
    decreases group.len(),
{
    if group.len() == 0 {
        b
    } else {
        names_unrunnable(
            group_unrunnable(b, steps, group.drop_last(), msg, ts),
            event_names_of(steps[group.last() as int]),
            msg,
            ts,
        )
    }
}

impl Batch {
    /// Fails every step of a group whose executor is unknown.
    pub fn fail_group(&mut self, plan: &ExecutionPlan, group: &Vec<usize>, fault: &Fault, ts: i64)
        requires
            old(self).wf(),
            forall|i: int| 0 <= i < group@.len() ==> (#[trigger] group@[i]) < plan.steps@.len(),
        ensures
            final(self).wf(),
            final(self)@ == group_unrunnable(
                old(self)@,
                plan.steps@,
                group@,
                fault_text(fault@),
                ts,
            ),
    {
        let msg = fault.text();
        let ghost b0 = self@;
        let ghost g = group@;
        let mut n: usize = 0;
        proof {
            assert(g.take(0) =~= Seq::empty());
        }
        while n < group.len()
            invariant
                self.wf(),
                g == group@,
                forall|i: int| 0 <= i < g.len() ==> (#[trigger] g[i]) < plan.steps@.len(),
                n <= g.len(),
                self@ == group_unrunnable(b0, plan.steps@, g.take(n as int), msg@, ts),
            decreases g.len() - n,
        {
            proof {
                assert(g.take(n + 1).drop_last() =~= g.take(n as int));
                assert(g.take(n + 1).last() == g[n as int]);
            }
            let names = plan.steps[group[n]].event_names();
            let ghost b1 = self@;
            let ghost t = texts(names@);
            let mut i: usize = 0;
            proof {
                assert(t.take(0) =~= Seq::empty());
            }
            while i < names.len()
                invariant
                    self.wf(),
                    t == texts(names@),
                    i <= t.len(),
                    self@ == names_unrunnable(b1, t.take(i as int), msg@, ts),
                decreases t.len() - i,
            {
                proof {
                    assert(t.take(i + 1).drop_last() =~= t.take(i as int));
                    assert(t.take(i + 1).last() == names@[i as int]@);
                }
                self.emit_step_failure(names[i].as_str(), msg.as_str(), None, ts);
                self.push_failure(
                    names[i].clone(),
                    StepError::Own(Fault::new(FaultKind::Configuration, msg.clone())),
                );
                self.mark_failed(names[i].clone());
                i += 1;
            }
            proof {
                assert(t.take(i as int) =~= t);
            }
            n += 1;
        }
        proof {
            assert(g.take(n as int) =~= g);
        }
    }
}

/// What the host does next for a plan.
#[derive(Debug)]
pub enum PlanAction {
    /// Ask whether the run was cancelled.
    AskCancelled,
    /// Run these steps on the run's own executor, or on the one given.
    Run { executor: Option<Executor>, steps: Vec<usize> },
    /// Nothing more: the plan is done, or was cancelled.
    Finish,
}

/// The execution of a plan: the level that comes next, and the groups of the present
/// one that are left.
#[derive(Debug)]
pub struct PlanRun {
    pub levels: Vec<Vec<usize>>,
    pub level: usize,
    pub groups: Vec<(String, Vec<usize>)>,
    pub cancelled: bool,
}

/// The steps from a level on, level by level.
pub open spec fn steps_from(levels: Seq<Vec<usize>>, n: int) -> Seq<usize>
    decreases levels.len() - n,
{
    if n < 0 || n >= levels.len() {
        Seq::empty()
    } else {
        levels[n]@ + steps_from(levels, n + 1)
    }
}

/// Whether every step of every level is one of the plan.
pub open spec fn levels_wf(levels: Seq<Vec<usize>>, plan: ExecutionPlan) -> bool {
    forall|i: int, j: int|
        #![trigger levels[i]@[j]]
        0 <= i < levels.len() && 0 <= j < levels[i]@.len() ==> levels[i]@[j] < plan.steps@.len()
}

impl PlanRun {
    pub open spec fn wf(&self, plan: ExecutionPlan) -> bool {
        &&& levels_wf(self.levels@, plan)
        &&& self.level <= self.levels@.len()
        &&& forall|i: int, j: int|
            #![trigger self.groups@[i].1@[j]]
            0 <= i < self.groups@.len() && 0 <= j < self.groups@[i].1@.len()
                ==> self.groups@[i].1@[j] < plan.steps@.len()
    }

    /// The execution of the levels of a plan.
    pub fn new(levels: Vec<Vec<usize>>, plan: &ExecutionPlan) -> (r: Self)
        requires
            levels_wf(levels@, *plan),
        ensures
            r.wf(*plan),
            r.levels == levels,
            r.level == 0,
            r.groups@.len() == 0,
            !r.cancelled,
    {
        PlanRun { levels, level: 0, groups: Vec::new(), cancelled: false }
    }

    /// Whether a level is about to begin: before each the host is asked for a
    /// cancellation.
    pub fn between_levels(&self) -> (r: bool)
        ensures
            r == (!self.cancelled && self.groups@.len() == 0 && self.level < self.levels@.len()),
    {
        !self.cancelled && self.groups.len() == 0 && self.level < self.levels.len()
    }

    /// Begins the next level, unless the run was cancelled: then the names of the
    /// steps that are left, and neither completed nor failed, are returned.
    pub fn enter_level(
        &mut self,
        nodes: &NodeMap,
        plan: &ExecutionPlan,
        completed: &NameSet,
        batch: &Batch,
        cancelled: bool,
    ) -> (r: Option<Vec<String>>)
        requires
            old(self).wf(*plan),
            !old(self).cancelled,
            old(self).groups@.len() == 0,
            old(self).level < old(self).levels@.len(),
        ensures
            final(self).wf(*plan),
            final(self).levels == old(self).levels,
            final(self).cancelled == cancelled,
            cancelled ==> {
                &&& final(self).level == old(self).level
                &&& final(self).groups@.len() == 0
                &&& r is Some && texts(r->0@) == deferred_names(
                    plan.steps@,
                    steps_from(old(self).levels@, old(self).level as int),
                    completed@,
                    batch@.failed,
                )
            },
            !cancelled ==> {
                &&& r is None
                &&& final(self).level == old(self).level + 1
                &&& groups_of(final(self).groups@) == level_groups(
                    nodes@,
                    plan.steps@,
                    old(self).levels@[old(self).level as int]@,
                )
            },
    {
        if cancelled {
            self.cancelled = true;
            let ghost all = steps_from(self.levels@, self.level as int);
            let mut out: Vec<String> = Vec::new();
            let ghost mut seen: Seq<usize> = Seq::empty();
            let mut n: usize = self.level;
            proof {
                assert(texts(out@) =~= Seq::empty());
                assert(seen + steps_from(self.levels@, n as int) =~= all);
            }
            while n < self.levels.len()
                invariant
                    self.levels == old(self).levels,
                    self.level == old(self).level,
                    self.groups == old(self).groups,
                    self.cancelled,
                    levels_wf(self.levels@, *plan),
                    n <= self.levels@.len(),
                    all == seen + steps_from(self.levels@, n as int),
                    texts(out@) == deferred_names(plan.steps@, seen, completed@, batch@.failed),
                decreases self.levels@.len() - n,
            {
                let ghost level = self.levels@[n as int]@;
                let ghost base = seen;
                let mut j: usize = 0;
                proof {
                    assert(base + level.take(0) =~= base);
                }
                while j < self.levels[n].len()
                    invariant
                        self.levels == old(self).levels,
                        self.level == old(self).level,
                        self.groups == old(self).groups,
                        self.cancelled,
                        levels_wf(self.levels@, *plan),
                        n < self.levels@.len(),
                        level == self.levels@[n as int]@,
                        j <= level.len(),
                        texts(out@) == deferred_names(
                            plan.steps@,
                            base + level.take(j as int),
                            completed@,
                            batch@.failed,
                        ),
                    decreases level.len() - j,
                {
                    proof {
                        let more = base + level.take(j + 1);
                        assert(more.drop_last() =~= base + level.take(j as int));
                        assert(more.last() == level[j as int]);
                        assert(self.levels@[n as int]@[j as int] < plan.steps@.len());
                    }
                    let idx: usize = self.levels[n][j];
                    let name = plan.steps[idx].name.as_str();
                    if !completed.contains(name) && !batch.was_failed(name) {
                        let ghost prev = texts(out@);
                        out.push(plan.steps[idx].name.clone());
                        proof {
                            assert(texts(out@) =~= prev.push(plan.steps@[idx as int].name@));
                        }
                    }
                    j += 1;
                }
                proof {
                    assert(level.take(j as int) =~= level);
                    seen = base + level;
                    assert(seen + steps_from(self.levels@, n + 1) =~= base + steps_from(
                        self.levels@,
                        n as int,
                    ));
                }
                n += 1;
            }
            proof {
                assert(seen + Seq::<usize>::empty() =~= seen);
            }
            return Some(out);
        }
        proof {
            assert forall|i: int| 0 <= i < self.levels@[self.level as int]@.len() implies (
            #[trigger] self.levels@[self.level as int]@[i]) < plan.steps@.len() by {}
        }
        let groups = group_level(nodes, plan, &self.levels[self.level]);
        let count: usize = self.levels.len();
        self.groups = groups;
        proof {
            assert(self.level < count);
        }
        self.level = self.level + 1;
        None
    }

    /// Takes the next group of the level: its steps and the key of its executor.
    fn next_group(&mut self, Ghost(plan): Ghost<ExecutionPlan>) -> (r: Option<
        (String, Vec<usize>),
    >)
        requires
            old(self).wf(plan),
        ensures
            final(self).wf(plan),
            final(self).levels == old(self).levels,
            final(self).level == old(self).level,
            final(self).cancelled == old(self).cancelled,
            match r {
                Some(g) => {
                    &&& old(self).groups@.len() > 0
                    &&& g == old(self).groups@[0]
                    &&& final(self).groups@ == old(self).groups@.drop_first()
                    &&& forall|j: int|
                        0 <= j < g.1@.len() ==> (#[trigger] g.1@[j]) < plan.steps@.len()
                },
                None => old(self).groups@.len() == 0 && final(self).groups == old(self).groups,
            },
    {
        if self.groups.len() == 0 {
            return None;
        }
        let ghost before = self.groups@;
        let g = self.groups.remove(0);
        proof {
            assert(self.groups@ =~= before.drop_first());
            assert forall|j: int| 0 <= j < g.1@.len() implies (#[trigger] g.1@[j])
                < plan.steps@.len() by {
                assert(before[0].1@[j] < plan.steps@.len());
            }
            assert forall|i: int, j: int|
                #![trigger self.groups@[i].1@[j]]
                0 <= i < self.groups@.len() && 0 <= j < self.groups@[i].1@.len() implies
                self.groups@[i].1@[j] < plan.steps@.len() by {
                assert(before[i + 1].1@[j] < plan.steps@.len());
            }
        }
        Some(g)
    }

    /// What the host does next. A group whose executor is unknown fails, and the next
    /// one is taken.
    pub fn next(
        &mut self,
        plan: &ExecutionPlan,
        batch: &mut Batch,
        available: usize,
        ts: i64,
    ) -> (r: PlanAction)
        requires
            old(self).wf(*plan),
            old(batch).wf(),
        ensures
            final(self).wf(*plan),
            final(batch).wf(),
            final(self).levels == old(self).levels,
            final(self).level == old(self).level,
            final(self).cancelled == old(self).cancelled,
            ({
                let n = runnable_at(groups_of(old(self).groups@), available);
                &&& final(batch)@ == groups_unrunnable(
                    old(batch)@,
                    plan.steps@,
                    old(self).groups@.take(n),
                    available,
                    ts,
                )
                &&& if n < old(self).groups@.len() {
                    &&& final(self).groups@ == old(self).groups@.skip(n + 1)
                    &&& r matches PlanAction::Run { executor, steps } && steps@
                        == old(self).groups@[n].1@ && group_executor(
                        old(self).groups@[n].0@,
                        available,
                    ) == Ok::<Option<Executor>, FaultView>(executor)
                } else {
                    &&& final(self).groups@.len() == 0
                    &&& if !old(self).cancelled && old(self).level < old(self).levels@.len() {
                        r is AskCancelled
                    } else {
                        r is Finish
                    }
                }
            }),
    {
        let ghost gs = self.groups@;
        let ghost gv = groups_of(gs);
        let ghost b0 = batch@;
        let ghost mut done: int = 0;
        proof {
            assert(gs.skip(0) =~= gs);
            assert(gs.take(0) =~= Seq::empty());
            assert(gv.skip(0) =~= gv);
        }
        loop
            invariant
                self.wf(*plan),
                batch.wf(),
                gs == old(self).groups@,
                gv == groups_of(gs),
                0 <= done <= gs.len(),
                self.groups@ == gs.skip(done),
                self.levels == old(self).levels,
                self.level == old(self).level,
                self.cancelled == old(self).cancelled,
                runnable_at(gv, available) == done + runnable_at(gv.skip(done), available),
                b0 == old(batch)@,
                batch@ == groups_unrunnable(b0, plan.steps@, gs.take(done), available, ts),
            decreases gs.len() - done,
        {
            let taken = self.next_group(Ghost(*plan));
            let (key, steps) = match taken {
                Some(g) => g,
                None => {
                    proof {
                        assert(gv.skip(done) =~= Seq::empty());
                        assert(gs.take(done) =~= gs);
                    }
                    return if self.between_levels() {
                        PlanAction::AskCancelled
                    } else {
                        PlanAction::Finish
                    };
                },
            };
            proof {
                assert((key, steps) == gs[done]);
                assert(self.groups@ =~= gs.skip(done + 1));
                assert(gv.skip(done)[0] == gv[done]);
                assert(gv.skip(done).drop_first() =~= gv.skip(done + 1));
                assert(gs.take(done + 1).drop_last() =~= gs.take(done));
                assert(gs.take(done + 1).last() == gs[done]);
            }
            if same_text(key.as_str(), "__default__") {
                return PlanAction::Run { executor: None, steps };
            }
            match Executor::from_metadata(key.as_str(), available) {
                Ok(e) => {
                    return PlanAction::Run { executor: Some(e), steps };
                },
                Err(fault) => {
                    batch.fail_group(plan, &steps, &fault, ts);
                },
            }
            proof {
                done = done + 1;
            }
        }
    }
}

/// The executor of a group: none stands for the run's own.
pub open spec fn group_executor(key: Seq<char>, available: usize) -> Result<
    Option<Executor>,
    FaultView,
> {
    if key == default_key() {
        Ok(None)
    } else {
        match named_executor(key, available) {
            Ok(e) => Ok(Some(e)),
            Err(f) => Err(f),
        }
    }
}

/// How many groups come before the first whose executor is known.
pub open spec fn runnable_at(groups: Seq<Group>, available: usize) -> int
    decreases groups.len(),
{
    if groups.len() == 0 || group_executor(groups[0].0, available) is Ok {
        0
    } else {
        1 + runnable_at(groups.drop_first(), available)
    }
}

/// A run after a list of groups failed for want of an executor.
pub open spec fn groups_unrunnable(
    b: BatchView,
    steps: Seq<ExecutionStep>,
    groups: Seq<(String, Vec<usize>)>,
    available: usize,
    ts: i64,
) -> BatchView
    decreases groups.len(),
{
    if groups.len() == 0 {
        b
    } else {
        group_unrunnable(
            groups_unrunnable(b, steps, groups.drop_last(), available, ts),
            steps,
            groups.last().1@,
            match group_executor(groups.last().0@, available) {
                Err(f) => fault_text(f),
                Ok(_) => Seq::empty(),
            },
            ts,
        )
    }
}

} // verus!
