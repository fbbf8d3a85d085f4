//! What a step needs before it can run, and which pools and policies apply to it.
use vstd::prelude::*;
use vstd::string::*;
use crate::executor::batch::{
    execution_error, keyed_event, recorded_failure, started_step, succeeded_step, Batch, BatchView,
};
use crate::executor::events::{pairs_view, EventType};
use crate::executor::obj::{Obj, NONE_ID};
use crate::executor::plan::{
    action_in, event_names_of, some_exclusive, ExecutionStep, NodeInfo, NodeMap, RetryRef, StepKind,
};
use crate::executor::results::{
    collect_input_data_versions, failure_hooks, materialization, success_hooks, versions_of,
};
use crate::names::{NameMap, NameSet};
use crate::partitions::key::{key_view, keys_view, lemma_keys_view, KeyView};
use crate::partitions::members::{display_of, members_of};
use crate::text::{split_at_first, split_once, texts};

verus! {

/// What the executor does with a step.
#[derive(Debug)]
pub enum StepAction {
    /// Nothing more: it was fully handled.
    Handled,
    /// Run it once for each item of the output of a source.
    Mapped { fan_out_source: String },
    /// Run it.
    Execute,
}

/// Whether a list of names has a member in a set.
pub open spec fn some_in(names: Seq<Seq<char>>, s: Set<Seq<char>>) -> bool {
    exists|i: int| 0 <= i < names.len() && s.contains(#[trigger] names[i])
}

/// The message of a step that is skipped.
pub open spec fn skip_message() -> Seq<char> {
    "Skipped: upstream dependency failed"@
}

/// A run after each name of a skipped step was recorded as failed.
pub open spec fn skipped_names(b: BatchView, names: Seq<Seq<char>>, ts: i64) -> BatchView
    decreases names.len(),
{
    if names.len() == 0 {
        b
    } else {
        let before = skipped_names(b, names.drop_last(), ts);
        recorded_failure(
            before,
            names.last(),
            execution_error(skip_message()),
            before.own_class,
            ts,
        )
    }
}

/// What becomes of a step.
#[derive(Debug)]
pub enum Verdict {
    /// It was completed before.
    Completed,
    /// A step that it depends on has failed.
    Skipped,
    Mapped,
    /// It stands for the outputs of a mapped step.
    Virtual,
    /// It is a graph asset that has failed, or one that has not.
    GraphFailed,
    GraphDone,
    Execute,
}

/// What becomes of a step of a run.
pub open spec fn step_verdict(
    b: BatchView,
    completed: Set<Seq<char>>,
    nodes: Map<Seq<char>, NodeInfo>,
    step: ExecutionStep,
) -> Verdict {
    if completed.contains(step.name@) {
        Verdict::Completed
    } else if some_in(texts(step.plan_dependencies@), b.failed) {
        Verdict::Skipped
    } else {
        match step.kind {
            StepKind::Mapped { .. } => Verdict::Mapped,
            StepKind::Collect { .. } => Verdict::Virtual,
            StepKind::CollectStream { .. } => Verdict::Virtual,
            StepKind::Normal => if nodes[step.name@].is_graph_asset {
                if b.failed.contains(step.name@) {
                    Verdict::GraphFailed
                } else {
                    Verdict::GraphDone
                }
            } else {
                Verdict::Execute
            },
        }
    }
}

/// A run after a step was classified.
pub open spec fn classified_step(
    b: BatchView,
    completed: Set<Seq<char>>,
    nodes: Map<Seq<char>, NodeInfo>,
    step: ExecutionStep,
    ts: i64,
) -> BatchView {
    match step_verdict(b, completed, nodes, step) {
        Verdict::Completed => b,
        Verdict::Skipped => {
            let failed = skipped_names(b, event_names_of(step), ts);
            if nodes.dom().contains(step.name@) && nodes[step.name@].is_graph_asset {
                failure_hooks(failed, nodes, step.name@, step.name@, skip_message(), None)
            } else {
                failed
            }
        },
        Verdict::Mapped => b,
        Verdict::Virtual => succeeded_step(started_step(b, step.name@, ts), step.name@, ts),
        Verdict::GraphFailed => b,
        Verdict::GraphDone => success_hooks(
            succeeded_step(
                keyed_event(
                    b,
                    step.name@,
                    materialization(
                        b,
                        step.name@,
                        Seq::empty(),
                        None,
                        versions_of(b.versions, texts(step.graph_dependencies@)),
                        ts,
                    ),
                ),
                step.name@,
                ts,
            ),
            nodes,
            step.name@,
            step.name@,
            Obj(NONE_ID),
            None,
        ),
        Verdict::Execute => match split_at_first(step.name@, '/') {
            Some((graph, _)) => if b.started.contains(graph) {
                b
            } else {
                started_step(
                    BatchView { started: b.started.insert(graph), ..b },
                    graph,
                    ts,
                )
            },
            None => b,
        },
    }
}

/// Whether an action is that of a verdict.
pub open spec fn action_of(a: StepAction, v: Verdict, step: ExecutionStep) -> bool {
    match v {
        Verdict::Mapped => a matches StepAction::Mapped { fan_out_source } && step.kind matches
            StepKind::Mapped { fan_out_source: s, .. } && fan_out_source@ == s@,
        Verdict::Execute => a is Execute,
        _ => a is Handled,
    }
}

impl Batch {
    fn some_failed(&self, names: &Vec<String>) -> (r: bool)
        ensures
            r == some_in(texts(names@), self@.failed),
    {
        let ghost t = texts(names@);
        let mut i: usize = 0;
        while i < names.len()
            invariant
                t == texts(names@),
                i <= names@.len(),
                forall|j: int| 0 <= j < i ==> !self@.failed.contains(#[trigger] t[j]),
            decreases names@.len() - i,
        {
            proof {
                assert(t[i as int] == names@[i as int]@);
            }
            if self.was_failed(names[i].as_str()) {
                return true;
            }
            i += 1;
        }
        false
    }

    /// Classifies a step: one that was completed before, that depends on a failed
    /// step, that stands for mapped outputs or for a graph asset is handled at once.
    pub fn classify_step(
        &mut self,
        completed: &NameSet,
        nodes: &NodeMap,
        step: &ExecutionStep,
        ts: i64,
    ) -> (r: StepAction)
        requires
            old(self).wf(),
            step.kind is Normal ==> nodes@.dom().contains(step.name@),
        ensures
            final(self).wf(),
            final(self)@ == classified_step(old(self)@, completed@, nodes@, *step, ts),
            action_of(r, step_verdict(old(self)@, completed@, nodes@, *step), *step),
    {
        if completed.contains(step.name.as_str()) {
            return StepAction::Handled;
        }
        if self.some_failed(&step.plan_dependencies) {
            let names = step.event_names();
            let ghost b0 = self@;
            let ghost t = texts(names@);
            let mut i: usize = 0;
            proof {
                assert(t.take(0) =~= Seq::empty());
            }
            while i < names.len()
                invariant
                    self.wf(),
                    t == texts(names@),
                    i <= t.len(),
                    self@ == skipped_names(b0, t.take(i as int), ts),
                decreases t.len() - i,
            {
                proof {
                    assert(t.take(i + 1).drop_last() =~= t.take(i as int));
                    assert(t.take(i + 1).last() == names@[i as int]@);
                }
                self.record_own_failure(
                    names[i].as_str(),
                    "Skipped: upstream dependency failed".to_owned(),
                    ts,
                );
                i += 1;
            }
            proof {
                assert(t.take(i as int) =~= t);
            }
            if let Some(node) = nodes.get(step.name.as_str()) {
                if node.is_graph_asset {
                    self.run_failure_hooks(
                        nodes,
                        step.name.as_str(),
                        step.name.as_str(),
                        "Skipped: upstream dependency failed",
                        None,
                    );
                }
            }
            return StepAction::Handled;
        }
        match &step.kind {
            StepKind::Mapped { fan_out_source, .. } => {
                return StepAction::Mapped { fan_out_source: fan_out_source.clone() };
            },
            StepKind::Collect { .. } => {
                self.emit_start(step.name.as_str(), ts);
                self.emit_success(step.name.as_str(), ts);
                return StepAction::Handled;
            },
            StepKind::CollectStream { .. } => {
                self.emit_start(step.name.as_str(), ts);
                self.emit_success(step.name.as_str(), ts);
                return StepAction::Handled;
            },
            StepKind::Normal => {},
        }
        let graph_asset = match nodes.get(step.name.as_str()) {
            Some(node) => node.is_graph_asset,
            None => false,
        };
        if graph_asset {
            if !self.was_failed(step.name.as_str()) {
                let inputs = collect_input_data_versions(
                    &self.data_versions,
                    &step.graph_dependencies,
                );
                let none: Vec<(String, String)> = Vec::new();
                proof {
                    assert(pairs_view(none@) =~= Seq::empty());
                }
                self.emit_keyed(
                    step.name.as_str(),
                    EventType::Materialization { data_version: None },
                    &none,
                    &inputs,
                    ts,
                );
                self.emit_success(step.name.as_str(), ts);
                self.run_success_hooks(
                    nodes,
                    step.name.as_str(),
                    step.name.as_str(),
                    Obj(NONE_ID),
                    None,
                );
            }
            return StepAction::Handled;
        }
        if let Some((graph, _)) = split_once(step.name.as_str(), '/') {
            let name = graph.clone();
            if self.mark_graph_started(graph) {
                self.emit_start(name.as_str(), ts);
            } else {
                proof {
                    assert(self@.started =~= old(self)@.started);
                }
            }
        }
        StepAction::Execute
    }
}

/// The implicit pool that an exclusive action shares with materialization.
pub open spec fn asset_pool(asset: Seq<char>) -> Seq<char> {
    "__asset__:"@ + asset
}

/// The implicit pool of an asset.
pub fn implicit_asset_pool(asset_key: &str) -> (r: String)
    ensures
        r@ == asset_pool(asset_key@),
{
    let mut s = "__asset__:".to_owned();
    s.append(asset_key);
    s
}

/// The capacity of an implicit pool. Exclusion is decided by partition overlap, not
/// by counting, so it only has to be high enough never to bind.
pub const EXCLUSIVE_POOL_CAPACITY: u32 = 1_000_000;

/// What a step touches on an implicit pool: the display forms of its partitions, or
/// the whole asset, and whether it excludes others.
#[derive(Debug)]
pub struct AssetScope {
    pub partitions: Option<Vec<String>>,
    pub exclusive: bool,
}

/// What a scope says.
pub type ScopeView = (Option<Seq<Seq<char>>>, bool);

impl View for AssetScope {
    type V = ScopeView;

    open spec fn view(&self) -> ScopeView {
        (crate::executor::results::opt_texts(self.partitions), self.exclusive)
    }
}

/// The display form of each key of a list.
pub open spec fn displays(keys: Seq<KeyView>) -> Seq<Seq<char>> {
    keys.map_values(|k: KeyView| display_of(k))
}

/// The scope of a run: the members of its key. A key without members counts as the
/// whole asset, as an empty set would neither block nor be blocked.
pub open spec fn scope_of(partition: Option<KeyView>, exclusive: bool) -> ScopeView {
    match partition {
        Some(pk) => if members_of(pk).len() == 0 {
            (None, exclusive)
        } else {
            (Some(displays(members_of(pk))), exclusive)
        },
        None => (None, exclusive),
    }
}

/// Whether two lists have a text in common.
pub open spec fn share_a_text(a: Seq<Seq<char>>, b: Seq<Seq<char>>) -> bool {
    exists|i: int, j: int|
        0 <= i < a.len() && 0 <= j < b.len() && #[trigger] a[i] == #[trigger] b[j]
}

/// Whether two scopes of one asset exclude each other: one of them is exclusive, and
/// they have a partition in common or one is the whole asset.
pub open spec fn scopes_conflict(a: ScopeView, b: ScopeView) -> bool {
    (a.1 || b.1) && match (a.0, b.0) {
        (Some(x), Some(y)) => share_a_text(x, y),
        _ => true,
    }
}

/// No step of a run gets a scope that conflicts with nothing: an exclusive scope
/// always conflicts with itself.
pub proof fn lemma_scope_never_empty(partition: Option<KeyView>)
    ensures
        scopes_conflict(scope_of(partition, true), scope_of(partition, true)),
{
    let a = scope_of(partition, true);
    match partition {
        Some(pk) => {
            let ms = members_of(pk);
            if ms.len() > 0 {
                let x = displays(ms);
                assert(a == (Some(x), true));
                assert(x[0] == display_of(ms[0]));
                assert(x[0] == x[0]);
                assert(share_a_text(x, x));
                assert(scopes_conflict(a, a));
            } else {
                assert(scopes_conflict(a, a));
            }
        },
        None => {
            assert(scopes_conflict(a, a));
        },
    }
}

/// The texts of a list of pools.
pub open spec fn pools_view(v: Seq<(String, u32)>) -> Seq<(Seq<char>, u32)> {
    v.map_values(|p: (String, u32)| (p.0@, p.1))
}

/// The implicit pools of the names of a list that have an exclusive action.
pub open spec fn exclusive_pools(nodes: Map<Seq<char>, NodeInfo>, names: Seq<Seq<char>>) -> Seq<
    (Seq<char>, u32),
>
    decreases names.len(),
{
    if names.len() == 0 {
        Seq::empty()
    } else if is_exclusive(nodes, names.last()) {
        exclusive_pools(nodes, names.drop_last()).push((asset_pool(names.last()), 1u32))
    } else {
        exclusive_pools(nodes, names.drop_last())
    }
}

/// Whether a node has an exclusive action.
pub open spec fn is_exclusive(nodes: Map<Seq<char>, NodeInfo>, name: Seq<char>) -> bool {
    nodes.dom().contains(name) && some_exclusive(nodes[name].actions@)
}

/// Whether the action of a verb on a node is exclusive.
pub open spec fn exclusive_verb(
    nodes: Map<Seq<char>, NodeInfo>,
    name: Seq<char>,
    verb: Seq<char>,
) -> bool {
    nodes.dom().contains(name) && match action_in(nodes[name].actions@, verb) {
        Some(a) => a.exclusive,
        None => false,
    }
}

/// The pools that the node of a step asks for itself.
pub open spec fn own_pools(nodes: Map<Seq<char>, NodeInfo>, name: Seq<char>) -> Seq<
    (Seq<char>, u32),
> {
    if nodes.dom().contains(name) {
        pools_view(nodes[name].pools@)
    } else {
        Seq::empty()
    }
}

/// The implicit pools that a step claims. An exclusive action claims that of its
/// asset; a materialization claims those of its outputs that have an exclusive
/// action, and an inner task of a graph asset that of the asset.
pub open spec fn implicit_pools(
    nodes: Map<Seq<char>, NodeInfo>,
    verb: Option<Seq<char>>,
    step: ExecutionStep,
) -> Seq<(Seq<char>, u32)> {
    match verb {
        Some(v) => if exclusive_verb(nodes, step.name@, v) {
            seq![(asset_pool(step.name@), 1u32)]
        } else {
            Seq::empty()
        },
        None => exclusive_pools(nodes, event_names_of(step)) + match split_at_first(
            step.name@,
            '/',
        ) {
            Some((parent, _)) => if is_exclusive(nodes, parent) {
                seq![(asset_pool(parent), 1u32)]
            } else {
                Seq::empty()
            },
            None => Seq::empty(),
        },
    }
}

/// The scope of a step: none where it claims no implicit pool.
pub open spec fn step_scope(
    b: BatchView,
    nodes: Map<Seq<char>, NodeInfo>,
    verb: Option<Seq<char>>,
    step: ExecutionStep,
) -> Option<ScopeView> {
    if implicit_pools(nodes, verb, step).len() == 0 {
        None
    } else {
        Some(scope_of(b.partition, verb is Some))
    }
}

/// What an optional verb is.
pub open spec fn opt_verb(v: Option<&str>) -> Option<Seq<char>> {
    match v {
        Some(s) => Some(s@),
        None => None,
    }
}

/// A copy of a list of pools.
pub fn copy_pools(v: &Vec<(String, u32)>) -> (r: Vec<(String, u32)>)
    ensures
        pools_view(r@) == pools_view(v@),
{
    let mut out: Vec<(String, u32)> = Vec::new();
    let mut i: usize = 0;
    while i < v.len()
        invariant
            i <= v@.len(),
            out@.len() == i,
            forall|j: int|
                0 <= j < i ==> (#[trigger] out@[j]).0@ == v@[j].0@ && out@[j].1 == v@[j].1,
        decreases v@.len() - i,
    {
        out.push((v[i].0.clone(), v[i].1));
        i += 1;
    }
    proof {
        assert(pools_view(out@) =~= pools_view(v@));
    }
    out
}

fn has_exclusive(nodes: &NodeMap, name: &str) -> (r: bool)
    ensures
        r == is_exclusive(nodes@, name@),
{
    match nodes.get(name) {
        Some(n) => n.has_exclusive_action(),
        None => false,
    }
}

fn implicit_pools_of(nodes: &NodeMap, verb: Option<&str>, step: &ExecutionStep) -> (r: Vec<
    (String, u32),
>)
    ensures
        pools_view(r@) == implicit_pools(nodes@, opt_verb(verb), *step),
{
    let mut out: Vec<(String, u32)> = Vec::new();
    proof {
        assert(pools_view(out@) =~= Seq::empty());
    }
    match verb {
        Some(v) => {
            let exclusive = match nodes.get(step.name.as_str()) {
                Some(n) => match n.find_action(v) {
                    Some(a) => a.exclusive,
                    None => false,
                },
                None => false,
            };
            if exclusive {
                out.push((implicit_asset_pool(step.name.as_str()), 1));
                proof {
                    assert(pools_view(out@) =~= seq![(asset_pool(step.name@), 1u32)]);
                }
            }
        },
        None => {
            let names = step.event_names();
            let ghost t = texts(names@);
            let mut i: usize = 0;
            proof {
                assert(t.take(0) =~= Seq::empty());
            }
            while i < names.len()
                invariant
                    t == texts(names@),
                    i <= t.len(),
                    pools_view(out@) == exclusive_pools(nodes@, t.take(i as int)),
                decreases t.len() - i,
            {
                proof {
                    assert(t.take(i + 1).drop_last() =~= t.take(i as int));
                    assert(t.take(i + 1).last() == names@[i as int]@);
                }
                if has_exclusive(nodes, names[i].as_str()) {
                    let ghost prev = pools_view(out@);
                    out.push((implicit_asset_pool(names[i].as_str()), 1));
                    proof {
                        assert(pools_view(out@) =~= prev.push((asset_pool(t[i as int]), 1u32)));
                    }
                }
                i += 1;
            }
            proof {
                assert(t.take(i as int) =~= t);
                assert(pools_view(out@) + Seq::empty() =~= pools_view(out@));
            }
            if let Some((parent, _)) = split_once(step.name.as_str(), '/') {
                if has_exclusive(nodes, parent.as_str()) {
                    let ghost prev = pools_view(out@);
                    out.push((implicit_asset_pool(parent.as_str()), 1));
                    proof {
                        assert(pools_view(out@) =~= prev + seq![(asset_pool(parent@), 1u32)]);
                    }
                }
            }
        },
    }
    out
}

impl Batch {
    /// What a step touches on an implicit pool.
    pub fn asset_scope(&self, exclusive: bool) -> (r: AssetScope)
        requires
            self.wf(),
        ensures
            r@ == scope_of(self@.partition, exclusive),
    {
        let members = match &self.partition_key {
            Some(pk) => pk.members(),
            None => {
                return AssetScope { partitions: None, exclusive };
            },
        };
        let ghost ks = keys_view(members@);
        proof {
            lemma_keys_view(members@);
        }
        if members.len() == 0 {
            return AssetScope { partitions: None, exclusive };
        }
        let mut out: Vec<String> = Vec::new();
        let mut i: usize = 0;
        while i < members.len()
            invariant
                ks == keys_view(members@),
                ks.len() == members@.len(),
                forall|j: int| 0 <= j < members@.len() ==> (#[trigger] members@[j]).wf(),
                forall|j: int| 0 <= j < members@.len() ==> !((#[trigger] members@[j]) is Batch),
                forall|j: int|
                    0 <= j < members@.len() ==> #[trigger] ks[j] == key_view(members@[j]),
                i <= members@.len(),
                texts(out@) == displays(ks.take(i as int)),
            decreases members@.len() - i,
        {
            let s = members[i].display();
            let ghost prev = texts(out@);
            let ghost e = s@;
            out.push(s);
            proof {
                assert(ks[i as int] == key_view(members@[i as int]));
                assert(texts(out@) =~= prev.push(e));
                assert(displays(ks.take(i + 1)) =~= displays(ks.take(i as int)).push(e));
            }
            i += 1;
        }
        proof {
            assert(ks.take(i as int) =~= ks);
        }
        AssetScope { partitions: Some(out), exclusive }
    }

    /// The pools that a step claims, and its scope on the implicit ones among them.
    pub fn step_pools(&self, nodes: &NodeMap, verb: Option<&str>, step: &ExecutionStep) -> (r: (
        Vec<(String, u32)>,
        Option<AssetScope>,
    ))
        requires
            self.wf(),
        ensures
            pools_view(r.0@) == own_pools(nodes@, step.name@) + implicit_pools(
                nodes@,
                opt_verb(verb),
                *step,
            ),
            match r.1 {
                Some(s) => step_scope(self@, nodes@, opt_verb(verb), *step) == Some(s@),
                None => step_scope(self@, nodes@, opt_verb(verb), *step) is None,
            },
    {
        let mut pools = match nodes.get(step.name.as_str()) {
            Some(n) => copy_pools(&n.pools),
            None => Vec::new(),
        };
        let mut implicit = implicit_pools_of(nodes, verb, step);
        let ghost a = pools_view(pools@);
        let ghost b = pools_view(implicit@);
        proof {
            assert(a =~= own_pools(nodes@, step.name@));
            assert(b.len() == implicit@.len());
        }
        let scope = if implicit.len() > 0 {
            Some(self.asset_scope(verb.is_some()))
        } else {
            None
        };
        pools.append(&mut implicit);
        proof {
            assert(pools_view(pools@) =~= a + b);
        }
        (pools, scope)
    }
}

/// The retry policy of a node. Inside a step pod there is none: the orchestrator owns
/// the attempts there.
pub open spec fn node_policy(
    nodes: Map<Seq<char>, NodeInfo>,
    in_pod: bool,
    name: Seq<char>,
) -> Option<u64> {
    if !in_pod && nodes.dom().contains(name) {
        nodes[name].retry
    } else {
        None
    }
}

/// The first policy among those of a list of nodes.
pub open spec fn first_policy(
    nodes: Map<Seq<char>, NodeInfo>,
    in_pod: bool,
    names: Seq<Seq<char>>,
) -> Option<u64>
    decreases names.len(),
{
    if names.len() == 0 {
        None
    } else {
        match first_policy(nodes, in_pod, names.drop_last()) {
            Some(p) => Some(p),
            None => node_policy(nodes, in_pod, names.last()),
        }
    }
}

/// The policy of a reference.
pub open spec fn ref_policy(r: RetryRef, named: Map<Seq<char>, u64>) -> Option<u64> {
    match r {
        RetryRef::Inline(p) => Some(p),
        RetryRef::Named(key) => if named.dom().contains(key@) {
            Some(named[key@])
        } else {
            None
        },
    }
}

/// The retry policy of a step. An action has its own or none; else that of the node
/// counts, and for several outputs the first that one of them has.
pub open spec fn step_policy(
    nodes: Map<Seq<char>, NodeInfo>,
    named: Map<Seq<char>, u64>,
    verb: Option<Seq<char>>,
    in_pod: bool,
    step: ExecutionStep,
) -> Option<u64> {
    match verb {
        Some(v) => if nodes.dom().contains(step.name@) {
            match action_in(nodes[step.name@].actions@, v) {
                Some(a) => match a.retry {
                    Some(r) => ref_policy(r, named),
                    None => None,
                },
                None => None,
            }
        } else {
            None
        },
        None => match node_policy(nodes, in_pod, step.name@) {
            Some(p) => Some(p),
            None => first_policy(nodes, in_pod, texts(step.outputs@)),
        },
    }
}

/// The retry policy of a node.
pub fn retry_policy(nodes: &NodeMap, in_pod: bool, step_name: &str) -> (r: Option<u64>)
    ensures
        r == node_policy(nodes@, in_pod, step_name@),
{
    if in_pod {
        return None;
    }
    match nodes.get(step_name) {
        Some(n) => n.retry,
        None => None,
    }
}

/// The retry policy of a step.
pub fn retry_policy_for(
    nodes: &NodeMap,
    named: &NameMap<u64>,
    verb: Option<&str>,
    in_pod: bool,
    step: &ExecutionStep,
) -> (r: Option<u64>)
    ensures
        r == step_policy(nodes@, named@, opt_verb(verb), in_pod, *step),
{
    if let Some(v) = verb {
        return match nodes.get(step.name.as_str()) {
            Some(n) => match n.find_action(v) {
                Some(a) => match &a.retry {
                    Some(RetryRef::Inline(p)) => Some(*p),
                    Some(RetryRef::Named(key)) => match named.get(key.as_str()) {
                        Some(p) => Some(*p),
                        None => None,
                    },
                    None => None,
                },
                None => None,
            },
            None => None,
        };
    }
    match retry_policy(nodes, in_pod, step.name.as_str()) {
        Some(p) => {
            return Some(p);
        },
        None => {},
    }
    let ghost t = texts(step.outputs@);
    let mut i: usize = 0;
    proof {
        assert(t.take(0) =~= Seq::empty());
    }
    while i < step.outputs.len()
        invariant
            t == texts(step.outputs@),
            verb is None,
            node_policy(nodes@, in_pod, step.name@) is None,
            i <= t.len(),
            first_policy(nodes@, in_pod, t.take(i as int)) is None,
        decreases t.len() - i,
    {
        proof {
            assert(t.take(i + 1).drop_last() =~= t.take(i as int));
            assert(t.take(i + 1).last() == step.outputs@[i as int]@);
        }
        if let Some(p) = retry_policy(nodes, in_pod, step.outputs[i].as_str()) {
            proof {
                lemma_first_policy_prefix(nodes@, in_pod, t, i + 1);
            }
            return Some(p);
        }
        i += 1;
    }
    proof {
        assert(t.take(i as int) =~= t);
    }
    None
}

proof fn lemma_first_policy_prefix(
    nodes: Map<Seq<char>, NodeInfo>,
    in_pod: bool,
    names: Seq<Seq<char>>,
    n: int,
)
    requires
        0 <= n <= names.len(),
        first_policy(nodes, in_pod, names.take(n)) is Some,
    ensures
        first_policy(nodes, in_pod, names) == first_policy(nodes, in_pod, names.take(n)),
    decreases names.len(),
{
    if n < names.len() {
        assert(names.drop_last().take(n) =~= names.take(n));
        lemma_first_policy_prefix(nodes, in_pod, names.drop_last(), n);
    } else {
        assert(names.take(n) =~= names);
    }
}

/// The compute description of a node.
pub open spec fn node_compute(nodes: Map<Seq<char>, NodeInfo>, name: Seq<char>) -> Option<u64> {
    if nodes.dom().contains(name) {
        nodes[name].compute
    } else {
        None
    }
}

/// The compute description of a step: that of its node, else the first that one of
/// its outputs has.
pub open spec fn first_compute(nodes: Map<Seq<char>, NodeInfo>, names: Seq<Seq<char>>) -> Option<u64>
    decreases names.len(),
{
    if names.len() == 0 {
        None
    } else {
        match node_compute(nodes, names[0]) {
            Some(c) => Some(c),
            None => first_compute(nodes, names.drop_first()),
        }
    }
}

/// The compute description of a step.
pub fn compute_for(nodes: &NodeMap, step: &ExecutionStep) -> (r: Option<u64>)
    ensures
        r == first_compute(nodes@, seq![step.name@] + texts(step.outputs@)),
{
    let ghost t = texts(step.outputs@);
    let ghost all = seq![step.name@] + t;
    proof {
        assert(all[0] == step.name@);
        assert(all.drop_first() =~= t);
        assert(t.skip(0) =~= t);
    }
    if let Some(n) = nodes.get(step.name.as_str()) {
        if let Some(c) = n.compute {
            return Some(c);
        }
    }
    let mut i: usize = 0;
    while i < step.outputs.len()
        invariant
            t == texts(step.outputs@),
            all == seq![step.name@] + t,
            i <= t.len(),
            first_compute(nodes@, all) == first_compute(nodes@, t.skip(i as int)),
        decreases t.len() - i,
    {
        proof {
            assert(t.skip(i as int)[0] == step.outputs@[i as int]@);
            assert(t.skip(i as int).drop_first() =~= t.skip(i + 1));
        }
        if let Some(n) = nodes.get(step.outputs[i].as_str()) {
            if let Some(c) = n.compute {
                return Some(c);
            }
        }
        i += 1;
    }
    None
}

} // verus!
