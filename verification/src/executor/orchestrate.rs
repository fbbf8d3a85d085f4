//! How the steps of a level become instances, and what becomes of mapped steps.
use vstd::prelude::*;
use vstd::string::*;
use crate::executor::batch::{
    execution_error, failed_step, list_map, recorded_failure, started_step, succeeded_step,
    text_map, with_failed, with_failure, Batch, BatchView, StepError,
};
use crate::executor::classify::{
    classified_step, copy_pools, implicit_pools, opt_verb, own_pools, pools_view, step_scope,
    step_verdict, AssetScope, ScopeView, StepAction, Verdict,
};
use crate::executor::obj::Obj;
use crate::executor::plan::{
    event_names_of, ExecutionPlan, ExecutionStep, NodeInfo, NodeMap, StepKind,
};
use crate::executor::results::{failure_hooks, opt_texts};
use crate::names::NameSet;
use crate::partitions::grid::opt_text;
use crate::text::{copy_texts, decimal, decimal_text, same_text, say3, texts};

verus! {

/// The name of an instance of a mapped step.
pub open spec fn instance_name_of(step: Seq<char>, key: Seq<char>) -> Seq<char> {
    step + "__"@ + key
}

/// The name of an instance of a mapped step.
pub fn instance_name(step: &str, key: &str) -> (r: String)
    ensures
        r@ == instance_name_of(step@, key@),
{
    say3(step, "__", key)
}

/// A unit of work: a step, or one instance of a mapped step.
#[derive(Debug)]
pub struct StepInstance {
    /// The number of the step in the plan.
    pub idx: usize,
    pub instance_name: String,
    pub mapping_key: Option<String>,
    pub event_names: Vec<String>,
    /// The source of a mapped instance and its item.
    pub fan_out: Option<(String, Obj)>,
    pub is_async: bool,
    pub pools: Vec<(String, u32)>,
    pub scope: Option<AssetScope>,
}

/// What an instance is.
pub struct InstanceView {
    pub idx: int,
    pub name: Seq<char>,
    pub key: Option<Seq<char>>,
    pub event_names: Seq<Seq<char>>,
    pub fan_out: Option<(Seq<char>, Obj)>,
    pub is_async: bool,
    pub pools: Seq<(Seq<char>, u32)>,
    pub scope: Option<ScopeView>,
}

impl View for StepInstance {
    type V = InstanceView;

    open spec fn view(&self) -> InstanceView {
        InstanceView {
            idx: self.idx as int,
            name: self.instance_name@,
            key: opt_text(self.mapping_key),
            event_names: texts(self.event_names@),
            fan_out: match self.fan_out {
                Some((s, o)) => Some((s@, o)),
                None => None,
            },
            is_async: self.is_async,
            pools: pools_view(self.pools@),
            scope: match self.scope {
                Some(s) => Some(s@),
                None => None,
            },
        }
    }
}

/// What each instance of a list is.
pub open spec fn instances_view(s: Seq<StepInstance>) -> Seq<InstanceView> {
    s.map_values(|i: StepInstance| i@)
}

/// The instance of a step that runs once.
pub open spec fn single_instance(
    b: BatchView,
    nodes: Map<Seq<char>, NodeInfo>,
    verb: Option<Seq<char>>,
    step: ExecutionStep,
    idx: int,
) -> InstanceView {
    InstanceView {
        idx,
        name: step.name@,
        key: None,
        event_names: event_names_of(step),
        fan_out: None,
        is_async: nodes.dom().contains(step.name@) && nodes[step.name@].is_async,
        pools: own_pools(nodes, step.name@) + implicit_pools(nodes, verb, step),
        scope: step_scope(b, nodes, verb, step),
    }
}

/// The instance of a mapped step for one item.
pub open spec fn mapped_instance(
    b: BatchView,
    nodes: Map<Seq<char>, NodeInfo>,
    verb: Option<Seq<char>>,
    step: ExecutionStep,
    idx: int,
    source: Seq<char>,
    key: Seq<char>,
    value: Obj,
) -> InstanceView {
    InstanceView {
        name: instance_name_of(step.name@, key),
        key: Some(key),
        event_names: seq![instance_name_of(step.name@, key)],
        fan_out: Some((source, value)),
        ..single_instance(b, nodes, verb, step, idx)
    }
}

/// An item of the output of a fan-out source: the object, and its own key and value
/// where it is a dynamic output.
#[derive(Debug)]
pub struct SourceItem {
    pub item: Obj,
    pub dynamic: Option<(String, Obj)>,
}

/// The key and the value of an item: its own where it has them, else its number and
/// the item itself.
pub open spec fn own_key(i: int, it: SourceItem) -> (Seq<char>, Obj) {
    match it.dynamic {
        Some((k, v)) => (k@, v),
        None => (decimal(i as nat), it.item),
    }
}

/// The key and the value of an item of a fan-out.
pub fn extract_mapping_key(index: usize, it: &SourceItem) -> (r: (String, Obj))
    ensures
        (r.0@, r.1) == own_key(index as int, *it),
{
    match &it.dynamic {
        Some((k, v)) => (k.clone(), *v),
        None => (decimal_text(index as u64), it.item),
    }
}

/// Where the predefined keys of a fan-out source are found.
#[derive(Debug)]
pub enum KeyLookup {
    /// The source ran here and has these.
    Keys(Vec<String>),
    /// There are none: the items are numbered.
    Numbered,
    /// They are kept under this data version of the source.
    Stored(String),
}

/// Where the predefined keys of a fan-out source are found: with the source where it
/// ran here, else under its data version, where that is known.
pub open spec fn key_lookup(b: BatchView, source: Seq<char>) -> (
    Option<Seq<Seq<char>>>,
    Option<Seq<char>>,
) {
    if b.dynamic.dom().contains(source) {
        if b.dynamic[source].len() == 0 {
            (None, None)
        } else {
            (Some(b.dynamic[source]), None)
        }
    } else if b.versions.dom().contains(source) {
        (None, Some(b.versions[source]))
    } else {
        (None, None)
    }
}

impl Batch {
    /// Where the predefined keys of a fan-out source are found.
    pub fn predefined_keys(&self, source: &str) -> (r: KeyLookup)
        ensures
            match r {
                KeyLookup::Keys(k) => key_lookup(self@, source@) == (
                    Some(texts(k@)),
                    None::<Seq<char>>,
                ),
                KeyLookup::Numbered => key_lookup(self@, source@) == (
                    None::<Seq<Seq<char>>>,
                    None::<Seq<char>>,
                ),
                KeyLookup::Stored(v) => key_lookup(self@, source@) == (
                    None::<Seq<Seq<char>>>,
                    Some(v@),
                ),
            },
    {
        proof {
            assert(list_map(self.step_dynamic_keys@).dom() =~= self.step_dynamic_keys@.dom());
            assert(text_map(self.data_versions@).dom() =~= self.data_versions@.dom());
        }
        if let Some(keys) = self.step_dynamic_keys.get(source) {
            proof {
                assert(texts(keys@).len() == keys@.len());
            }
            return if keys.len() == 0 {
                KeyLookup::Numbered
            } else {
                KeyLookup::Keys(copy_texts(keys))
            };
        }
        match self.data_versions.get(source) {
            Some(v) => KeyLookup::Stored(v.clone()),
            None => KeyLookup::Numbered,
        }
    }
}

/// The keys that a store has: none where it has no entry, an empty one, or cannot be
/// read.
pub fn stored_keys<E>(reply: Result<Option<Vec<String>>, E>) -> (r: Option<Vec<String>>)
    ensures
        match r {
            Some(k) => k@.len() > 0 && reply == Ok::<Option<Vec<String>>, E>(Some(k)),
            None => reply is Err || reply->Ok_0 is None || reply->Ok_0->0@.len() == 0,
        },
{
    match reply {
        Ok(Some(k)) => {
            if k.len() > 0 {
                Some(k)
            } else {
                None
            }
        },
        Ok(None) => None,
        Err(_) => None,
    }
}

/// The output of a fan-out source, or why it cannot be used. The text is that of the
/// host's error.
#[derive(Debug)]
pub enum Source {
    LoadFailed(String),
    NotIterable(String),
    IterationFailed(String),
    Items(Vec<SourceItem>),
}

/// Why a fan-out source cannot be used.
pub open spec fn source_fault(s: Source) -> Option<Seq<char>> {
    match s {
        Source::LoadFailed(e) => Some("Failed to load fan-out source: "@ + e@),
        Source::NotIterable(e) => Some("Fan-out source is not iterable: "@ + e@),
        Source::IterationFailed(e) => Some("Failed to iterate fan-out source: "@ + e@),
        Source::Items(_) => None,
    }
}

/// The key and the value of each item of a fan-out: with predefined keys the items
/// come as they are.
pub open spec fn item_key(keys: Option<Seq<Seq<char>>>, i: int, it: SourceItem) -> (Seq<char>, Obj) {
    match keys {
        Some(k) => (k[i], it.item),
        None => own_key(i, it),
    }
}

/// The instances of a mapped step.
pub open spec fn mapped_instances(
    b: BatchView,
    nodes: Map<Seq<char>, NodeInfo>,
    verb: Option<Seq<char>>,
    step: ExecutionStep,
    idx: int,
    source: Seq<char>,
    keys: Option<Seq<Seq<char>>>,
    items: Seq<SourceItem>,
) -> Seq<InstanceView> {
    Seq::new(
        items.len(),
        |i: int|
            mapped_instance(
                b,
                nodes,
                verb,
                step,
                idx,
                source,
                item_key(keys, i, items[i]).0,
                item_key(keys, i, items[i]).1,
            ),
    )
}

fn copy_scope(s: &Option<AssetScope>) -> (r: Option<AssetScope>)
    ensures
        match (r, *s) {
            (Some(a), Some(b)) => a@ == b@,
            (None, None) => true,
            _ => false,
        },
{
    match s {
        Some(x) => Some(
            AssetScope {
                partitions: match &x.partitions {
                    Some(p) => Some(copy_texts(p)),
                    None => None,
                },
                exclusive: x.exclusive,
            },
        ),
        None => None,
    }
}

impl Batch {
    /// The instances of a mapped step, one for each item of its source; a source that
    /// cannot be used fails the step.
    pub fn build_mapped_instances(
        &mut self,
        nodes: &NodeMap,
        verb: Option<&str>,
        step: &ExecutionStep,
        idx: usize,
        fan_out_source: &str,
        source: Source,
        predefined: Option<Vec<String>>,
        ts: i64,
    ) -> (r: Option<Vec<StepInstance>>)
        requires
            old(self).wf(),
            predefined matches Some(k) ==> (source matches Source::Items(items) ==> items@.len()
                <= k@.len()),
        ensures
            final(self).wf(),
            match source_fault(source) {
                Some(msg) => r is None && final(self)@ == recorded_failure(
                    old(self)@,
                    step.name@,
                    execution_error(msg),
                    old(self)@.own_class,
                    ts,
                ),
                None => final(self)@ == old(self)@ && r is Some && instances_view(r->0@)
                    == mapped_instances(
                    old(self)@,
                    nodes@,
                    opt_verb(verb),
                    *step,
                    idx as int,
                    fan_out_source@,
                    opt_texts(predefined),
                    source->Items_0@,
                ),
            },
    {
        let (pools, scope) = self.step_pools(nodes, verb, step);
        let is_async = match nodes.get(step.name.as_str()) {
            Some(n) => n.is_async,
            None => false,
        };
        let items = match source {
            Source::Items(v) => v,
            Source::LoadFailed(e) => {
                let mut s = "Failed to load fan-out source: ".to_owned();
                s.append(e.as_str());
                self.record_own_failure(step.name.as_str(), s, ts);
                return None;
            },
            Source::NotIterable(e) => {
                let mut s = "Fan-out source is not iterable: ".to_owned();
                s.append(e.as_str());
                self.record_own_failure(step.name.as_str(), s, ts);
                return None;
            },
            Source::IterationFailed(e) => {
                let mut s = "Failed to iterate fan-out source: ".to_owned();
                s.append(e.as_str());
                self.record_own_failure(step.name.as_str(), s, ts);
                return None;
            },
        };
        let ghost keys = opt_texts(predefined);
        let ghost v = opt_verb(verb);
        let ghost all = mapped_instances(
            self@,
            nodes@,
            v,
            *step,
            idx as int,
            fan_out_source@,
            keys,
            items@,
        );
        let mut out: Vec<StepInstance> = Vec::new();
        let mut i: usize = 0;
        proof {
            assert(instances_view(out@) =~= all.take(0));
        }
        while i < items.len()
            invariant
                keys == opt_texts(predefined),
                v == opt_verb(verb),
                predefined matches Some(k) ==> items@.len() <= k@.len(),
                pools_view(pools@) == own_pools(nodes@, step.name@) + implicit_pools(
                    nodes@,
                    v,
                    *step,
                ),
                match scope {
                    Some(s) => step_scope(self@, nodes@, v, *step) == Some(s@),
                    None => step_scope(self@, nodes@, v, *step) is None,
                },
                is_async == (nodes@.dom().contains(step.name@) && nodes@[step.name@].is_async),
                all == mapped_instances(
                    self@,
                    nodes@,
                    v,
                    *step,
                    idx as int,
                    fan_out_source@,
                    keys,
                    items@,
                ),
                i <= items@.len(),
                instances_view(out@) == all.take(i as int),
            decreases items@.len() - i,
        {
            let (key, value) = match &predefined {
                Some(k) => {
                    proof {
                        assert(texts(k@)[i as int] == k@[i as int]@);
                    }
                    (k[i].clone(), items[i].item)
                },
                None => extract_mapping_key(i, &items[i]),
            };
            let name = instance_name(step.name.as_str(), key.as_str());
            let mut names: Vec<String> = Vec::new();
            names.push(name.clone());
            proof {
                assert(texts(names@) =~= seq![name@]);
            }
            let inst = StepInstance {
                idx,
                instance_name: name,
                mapping_key: Some(key),
                event_names: names,
                fan_out: Some((fan_out_source.to_owned(), value)),
                is_async,
                pools: copy_pools(&pools),
                scope: copy_scope(&scope),
            };
            let ghost prev = instances_view(out@);
            let ghost iv = inst@;
            out.push(inst);
            proof {
                assert(iv == all[i as int]);
                assert(instances_view(out@) =~= prev.push(iv));
                assert(all.take(i + 1) =~= all.take(i as int).push(iv));
            }
            i += 1;
        }
        proof {
            assert(all.take(i as int) =~= all);
        }
        Some(out)
    }
}

/// A mapped step of a level: the number of the step and the keys of its instances.
#[derive(Debug)]
pub struct MappedStepRecord {
    pub idx: usize,
    pub keys: Vec<String>,
}

/// The keys of the instances of a mapped step that did not fail.
pub open spec fn surviving_keys(b: BatchView, step: Seq<char>, keys: Seq<Seq<char>>) -> Seq<
    Seq<char>,
>
    decreases keys.len(),
{
    if keys.len() == 0 {
        keys
    } else if b.failed.contains(instance_name_of(step, keys.last())) {
        surviving_keys(b, step, keys.drop_last())
    } else {
        surviving_keys(b, step, keys.drop_last()).push(keys.last())
    }
}

/// A mapped step survives whole exactly when no instance failed.
pub proof fn lemma_surviving_keys(b: BatchView, step: Seq<char>, keys: Seq<Seq<char>>)
    ensures
        surviving_keys(b, step, keys).len() <= keys.len(),
        surviving_keys(b, step, keys).len() == keys.len() <==> forall|i: int|
            0 <= i < keys.len() ==> !b.failed.contains(instance_name_of(step, #[trigger] keys[i])),
        surviving_keys(b, step, keys).len() == keys.len() ==> surviving_keys(b, step, keys) == keys,
    decreases keys.len(),
{
    if keys.len() > 0 {
        let w = keys.drop_last();
        lemma_surviving_keys(b, step, w);
        if surviving_keys(b, step, keys).len() == keys.len() {
            assert(keys =~= w.push(keys.last()));
            assert forall|i: int| 0 <= i < keys.len() implies !b.failed.contains(
                instance_name_of(step, #[trigger] keys[i]),
            ) by {
                if i < w.len() {
                    assert(w[i] == keys[i]);
                }
            }
        }
        if forall|i: int|
            0 <= i < keys.len() ==> !b.failed.contains(instance_name_of(step, #[trigger] keys[i])) {
            assert forall|i: int| 0 <= i < w.len() implies !b.failed.contains(
                instance_name_of(step, #[trigger] w[i]),
            ) by {
                assert(w[i] == keys[i]);
            }
            assert(!b.failed.contains(instance_name_of(step, keys[keys.len() - 1])));
        }
    }
}

/// A run after a mapped step was rolled up: it fails where one of its instances did,
/// else its keys are recorded.
pub open spec fn rolled_up(b: BatchView, step: Seq<char>, keys: Seq<Seq<char>>, ts: i64) -> BatchView {
    if surviving_keys(b, step, keys).len() < keys.len() {
        with_failed(failed_step(b, step, "One or more map instances failed"@, None, ts), step)
    } else {
        let done = succeeded_step(b, step, ts);
        BatchView { mapped: done.mapped.insert(step, keys), ..done }
    }
}

/// A run after a list of mapped steps was rolled up.
pub open spec fn all_rolled_up(
    b: BatchView,
    steps: Seq<ExecutionStep>,
    records: Seq<MappedStepRecord>,
    ts: i64,
) -> BatchView
    decreases records.len(),
{
    if records.len() == 0 {
        b
    } else {
        rolled_up(
            all_rolled_up(b, steps, records.drop_last(), ts),
            steps[records.last().idx as int].name@,
            texts(records.last().keys@),
            ts,
        )
    }
}

impl Batch {
    /// Rolls up the mapped steps of a level.
    pub fn finalize_mapped_steps(
        &mut self,
        plan: &ExecutionPlan,
        records: &Vec<MappedStepRecord>,
        ts: i64,
    )
        requires
            old(self).wf(),
            forall|i: int|
                0 <= i < records@.len() ==> (#[trigger] records@[i]).idx < plan.steps@.len(),
        ensures
            final(self).wf(),
            final(self)@ == all_rolled_up(old(self)@, plan.steps@, records@, ts),
    {
        let ghost b0 = self@;
        let ghost s = records@;
        let mut n: usize = 0;
        proof {
            assert(s.take(0) =~= Seq::empty());
        }
        while n < records.len()
            invariant
                self.wf(),
                s == records@,
                forall|i: int| 0 <= i < s.len() ==> (#[trigger] s[i]).idx < plan.steps@.len(),
                n <= s.len(),
                self@ == all_rolled_up(b0, plan.steps@, s.take(n as int), ts),
            decreases s.len() - n,
        {
            proof {
                assert(s.take(n + 1).drop_last() =~= s.take(n as int));
                assert(s.take(n + 1).last() == s[n as int]);
            }
            let rec = &records[n];
            let step = &plan.steps[rec.idx];
            let ghost t = texts(rec.keys@);
            let mut successful: Vec<String> = Vec::new();
            let mut i: usize = 0;
            proof {
                assert(t.take(0) =~= Seq::empty());
                assert(texts(successful@) =~= Seq::empty());
            }
            while i < rec.keys.len()
                invariant
                    t == texts(rec.keys@),
                    i <= t.len(),
                    texts(successful@) == surviving_keys(self@, step.name@, t.take(i as int)),
                decreases t.len() - i,
            {
                proof {
                    assert(t.take(i + 1).drop_last() =~= t.take(i as int));
                    assert(t.take(i + 1).last() == rec.keys@[i as int]@);
                }
                let name = instance_name(step.name.as_str(), rec.keys[i].as_str());
                if !self.was_failed(name.as_str()) {
                    let ghost prev = texts(successful@);
                    successful.push(rec.keys[i].clone());
                    proof {
                        assert(texts(successful@) =~= prev.push(t[i as int]));
                    }
                }
                i += 1;
            }
            proof {
                assert(t.take(i as int) =~= t);
                assert(texts(successful@).len() == successful@.len());
                lemma_surviving_keys(self@, step.name@, t);
            }
            if successful.len() < rec.keys.len() {
                self.emit_step_failure(
                    step.name.as_str(),
                    "One or more map instances failed",
                    None,
                    ts,
                );
                self.mark_failed(step.name.clone());
            } else {
                self.emit_success(step.name.as_str(), ts);
                self.record_mapped_keys(step.name.clone(), successful);
            }
            n += 1;
        }
        proof {
            assert(s.take(n as int) =~= s);
        }
    }
}

/// A run after every instance of a list failed with one message.
pub open spec fn all_instances_failed(
    b: BatchView,
    nodes: Map<Seq<char>, NodeInfo>,
    steps: Seq<ExecutionStep>,
    instances: Seq<InstanceView>,
    msg: Seq<char>,
    ts: i64,
) -> BatchView
    decreases instances.len(),
{
    if instances.len() == 0 {
        b
    } else {
        let before = all_instances_failed(b, nodes, steps, instances.drop_last(), msg, ts);
        let name = instances.last().name;
        with_failed(
            with_failure(
                failure_hooks(
                    failed_step(before, name, msg, None, ts),
                    nodes,
                    steps[instances.last().idx].name@,
                    name,
                    msg,
                    None,
                ),
                name,
                execution_error(msg),
            ),
            name,
        )
    }
}

impl Batch {
    /// Fails all instances of a batch with the same message: for each a record, the
    /// failure hooks of its node, the failure and the mark.
    pub fn fail_all_instances(
        &mut self,
        nodes: &NodeMap,
        plan: &ExecutionPlan,
        instances: &Vec<StepInstance>,
        msg: &str,
        ts: i64,
    )
        requires
            old(self).wf(),
            forall|i: int|
                0 <= i < instances@.len() ==> (#[trigger] instances@[i]).idx < plan.steps@.len(),
        ensures
            final(self).wf(),
            final(self)@ == all_instances_failed(
                old(self)@,
                nodes@,
                plan.steps@,
                instances_view(instances@),
                msg@,
                ts,
            ),
    {
        let ghost b0 = self@;
        let ghost s = instances_view(instances@);
        let mut i: usize = 0;
        proof {
            assert(s.take(0) =~= Seq::empty());
        }
        while i < instances.len()
            invariant
                self.wf(),
                s == instances_view(instances@),
                forall|j: int|
                    0 <= j < instances@.len() ==> (#[trigger] instances@[j]).idx
                        < plan.steps@.len(),
                i <= s.len(),
                self@ == all_instances_failed(
                    b0,
                    nodes@,
                    plan.steps@,
                    s.take(i as int),
                    msg@,
                    ts,
                ),
            decreases s.len() - i,
        {
            proof {
                assert(s.take(i + 1).drop_last() =~= s.take(i as int));
                assert(s.take(i + 1).last() == instances@[i as int]@);
            }
            let inst = &instances[i];
            self.emit_step_failure(inst.instance_name.as_str(), msg, None, ts);
            self.run_failure_hooks(
                nodes,
                plan.steps[inst.idx].name.as_str(),
                inst.instance_name.as_str(),
                msg,
                None,
            );
            self.push_failure(inst.instance_name.clone(), StepError::execution(msg.to_owned()));
            self.mark_failed(inst.instance_name.clone());
            i += 1;
        }
        proof {
            assert(s.take(i as int) =~= s);
        }
    }
}

/// The work of a level: the steps that run once, and the mapped steps with their
/// instances and how many of these run at once.
#[derive(Debug)]
pub struct LevelRun {
    pub singles: Vec<StepInstance>,
    pub groups: Vec<(MappedStepRecord, Vec<StepInstance>, Option<usize>)>,
}

/// What a group is.
pub type GroupView = (int, Seq<InstanceView>, Option<usize>);

/// What each group of a list is.
pub open spec fn groups_view(
    s: Seq<(MappedStepRecord, Vec<StepInstance>, Option<usize>)>,
) -> Seq<GroupView> {
    s.map_values(
        |g: (MappedStepRecord, Vec<StepInstance>, Option<usize>)|
            (g.0.idx as int, instances_view(g.1@), g.2),
    )
}

/// The keys of a list of instances.
pub open spec fn instance_keys(s: Seq<InstanceView>) -> Seq<Seq<char>>
    decreases s.len(),
{
    if s.len() == 0 {
        Seq::empty()
    } else {
        match s.last().key {
            Some(k) => instance_keys(s.drop_last()).push(k),
            None => instance_keys(s.drop_last()),
        }
    }
}

/// The keys of mapped instances are those of their items, one each.
pub proof fn lemma_instance_keys(s: Seq<InstanceView>)
    requires
        forall|i: int| 0 <= i < s.len() ==> (#[trigger] s[i]).key is Some,
    ensures
        instance_keys(s).len() == s.len(),
        forall|i: int| 0 <= i < s.len() ==> #[trigger] instance_keys(s)[i] == s[i].key->0,
    decreases s.len(),
{
    if s.len() > 0 {
        let w = s.drop_last();
        assert forall|i: int| 0 <= i < w.len() implies (#[trigger] w[i]).key is Some by {
            assert(s[i].key is Some);
        }
        lemma_instance_keys(w);
        assert(s[s.len() - 1].key is Some);
        assert forall|i: int| 0 <= i < s.len() implies #[trigger] instance_keys(s)[i]
            == s[i].key->0 by {
            if i < w.len() {
                assert(instance_keys(w)[i] == w[i].key->0);
            }
        }
    }
}

/// How many instances of a mapped step run at once.
pub open spec fn concurrency_of(step: ExecutionStep) -> Option<usize> {
    match step.kind {
        StepKind::Mapped { max_concurrency, .. } => max_concurrency,
        _ => None,
    }
}

/// What the host does for a step of a level.
#[derive(Debug)]
pub enum LevelAction {
    /// Nothing more.
    Next,
    /// Load this fan-out source and hand it over.
    Load(String),
}

impl LevelRun {
    /// Every record and instance names a step of the plan, and every record has the
    /// keys of its instances.
    pub open spec fn wf(&self, plan: ExecutionPlan) -> bool {
        &&& forall|i: int|
            0 <= i < self.singles@.len() ==> (#[trigger] self.singles@[i]).idx < plan.steps@.len()
        &&& forall|i: int|
            0 <= i < self.groups@.len() ==> {
                &&& (#[trigger] self.groups@[i]).0.idx < plan.steps@.len()
                &&& texts(self.groups@[i].0.keys@) == instance_keys(
                    instances_view(self.groups@[i].1@),
                )
            }
    }

    pub fn new() -> (r: Self)
        ensures
            r.singles@.len() == 0,
            r.groups@.len() == 0,
    {
        LevelRun { singles: Vec::new(), groups: Vec::new() }
    }

    /// Takes a step of the level: one that runs once joins the singles; of a mapped
    /// one the start is recorded and the source is asked for.
    pub fn take_step(
        &mut self,
        batch: &mut Batch,
        completed: &NameSet,
        nodes: &NodeMap,
        plan: &ExecutionPlan,
        idx: usize,
        ts: i64,
    ) -> (r: LevelAction)
        requires
            old(self).wf(*plan),
            old(batch).wf(),
            idx < plan.steps@.len(),
            plan.steps@[idx as int].kind is Normal ==> nodes@.dom().contains(
                plan.steps@[idx as int].name@,
            ),
        ensures
            final(self).wf(*plan),
            final(batch).wf(),
            final(self).groups == old(self).groups,
            ({
                let step = plan.steps@[idx as int];
                let done = classified_step(old(batch)@, completed@, nodes@, step, ts);
                match step_verdict(old(batch)@, completed@, nodes@, step) {
                    Verdict::Mapped => {
                        &&& r matches LevelAction::Load(s) && step.kind matches StepKind::Mapped {
                            fan_out_source,
                            ..
                        } && s@ == fan_out_source@
                        &&& final(batch)@ == started_step(done, step.name@, ts)
                        &&& final(self).singles == old(self).singles
                    },
                    Verdict::Execute => {
                        &&& r is Next
                        &&& final(batch)@ == done
                        &&& instances_view(final(self).singles@) == instances_view(
                            old(self).singles@,
                        ).push(
                            single_instance(
                                done,
                                nodes@,
                                opt_text(plan.verb),
                                step,
                                idx as int,
                            ),
                        )
                    },
                    _ => {
                        &&& r is Next
                        &&& final(batch)@ == done
                        &&& final(self).singles == old(self).singles
                    },
                }
            }),
    {
        let step = &plan.steps[idx];
        match batch.classify_step(completed, nodes, step, ts) {
            StepAction::Handled => LevelAction::Next,
            StepAction::Mapped { fan_out_source } => {
                batch.emit_start(step.name.as_str(), ts);
                LevelAction::Load(fan_out_source)
            },
            StepAction::Execute => {
                let verb = match &plan.verb {
                    Some(v) => Some(v.as_str()),
                    None => None,
                };
                proof {
                    assert(opt_verb(verb) == opt_text(plan.verb));
                }
                let (pools, scope) = batch.step_pools(nodes, verb, step);
                let is_async = match nodes.get(step.name.as_str()) {
                    Some(n) => n.is_async,
                    None => false,
                };
                let inst = StepInstance {
                    idx,
                    instance_name: step.name.clone(),
                    mapping_key: None,
                    event_names: step.event_names(),
                    fan_out: None,
                    is_async,
                    pools,
                    scope,
                };
                let ghost prev = instances_view(self.singles@);
                let ghost iv = inst@;
                self.singles.push(inst);
                proof {
                    assert(instances_view(self.singles@) =~= prev.push(iv));
                }
                LevelAction::Next
            },
        }
    }

    /// Adds the instances of a mapped step whose source was loaded.
    pub fn add_mapped(
        &mut self,
        plan: &ExecutionPlan,
        idx: usize,
        instances: Vec<StepInstance>,
    )
        requires
            old(self).wf(*plan),
            idx < plan.steps@.len(),
        ensures
            final(self).wf(*plan),
            final(self).singles == old(self).singles,
            groups_view(final(self).groups@) == groups_view(old(self).groups@).push(
                (
                    idx as int,
                    instances_view(instances@),
                    concurrency_of(plan.steps@[idx as int]),
                ),
            ),
    {
        let mut keys: Vec<String> = Vec::new();
        let ghost s = instances_view(instances@);
        let mut i: usize = 0;
        proof {
            assert(s.take(0) =~= Seq::empty());
            assert(texts(keys@) =~= Seq::empty());
        }
        while i < instances.len()
            invariant
                s == instances_view(instances@),
                i <= s.len(),
                texts(keys@) == instance_keys(s.take(i as int)),
            decreases s.len() - i,
        {
            proof {
                assert(s.take(i + 1).drop_last() =~= s.take(i as int));
                assert(s.take(i + 1).last() == instances@[i as int]@);
            }
            match &instances[i].mapping_key {
                Some(k) => {
                    let ghost prev = texts(keys@);
                    keys.push(k.clone());
                    proof {
                        assert(texts(keys@) =~= prev.push(k@));
                    }
                },
                None => {},
            }
            i += 1;
        }
        proof {
            assert(s.take(i as int) =~= s);
        }
        let limit = match &plan.steps[idx].kind {
            StepKind::Mapped { max_concurrency, .. } => *max_concurrency,
            _ => None,
        };
        let ghost prev = groups_view(self.groups@);
        let ghost g = (idx as int, s, limit);
        self.groups.push((MappedStepRecord { idx, keys }, instances, limit));
        proof {
            assert(groups_view(self.groups@) =~= prev.push(g));
        }
    }

    /// The batches of the level in the order in which they run, and what is to be
    /// rolled up afterwards: first the steps that run once, where there are any, then
    /// each mapped step.
    pub fn dispatch(self) -> (r: (
        Vec<(Vec<StepInstance>, Option<usize>)>,
        Vec<MappedStepRecord>,
    ))
        ensures
            batches_view(r.0@) == level_batches(
                instances_view(self.singles@),
                groups_view(self.groups@),
            ),
            r.1@.len() == self.groups@.len(),
            forall|i: int| 0 <= i < r.1@.len() ==> #[trigger] r.1@[i] == self.groups@[i].0,
    {
        let mut out: Vec<(Vec<StepInstance>, Option<usize>)> = Vec::new();
        let mut records: Vec<MappedStepRecord> = Vec::new();
        let ghost gs = self.groups@;
        let ghost gv = groups_view(gs);
        let ghost sv = instances_view(self.singles@);
        let mut rest = self.groups;
        let singles = self.singles;
        if singles.len() > 0 {
            out.push((singles, None));
        }
        let ghost mut n: int = 0;
        let ghost head = level_batches(sv, Seq::empty());
        proof {
            assert(batches_view(out@) =~= head);
            assert(head + gv.take(0).map_values(|g: GroupView| (g.1, g.2)) =~= head);
            assert(gs.skip(0) =~= gs);
        }
        while rest.len() > 0
            invariant
                0 <= n <= gs.len(),
                rest@ == gs.skip(n),
                gv == groups_view(gs),
                records@.len() == n,
                forall|i: int| 0 <= i < n ==> #[trigger] records@[i] == gs[i].0,
                batches_view(out@) == head + gv.take(n).map_values(|g: GroupView| (g.1, g.2)),
            decreases rest@.len(),
        {
            let (record, instances, limit) = rest.remove(0);
            proof {
                assert(gs.skip(n)[0] == gs[n]);
                assert(rest@ =~= gs.skip(n + 1));
            }
            let ghost prev = batches_view(out@);
            let ghost e = (instances_view(instances@), limit);
            records.push(record);
            out.push((instances, limit));
            proof {
                assert(batches_view(out@) =~= prev.push(e));
                assert(gv[n] == (gs[n].0.idx as int, e.0, e.1));
                assert(head + gv.take(n + 1).map_values(|g: GroupView| (g.1, g.2)) =~= (head
                    + gv.take(n).map_values(|g: GroupView| (g.1, g.2))).push(e));
                n = n + 1;
            }
        }
        proof {
            assert(gv.take(n) =~= gv);
            assert(batches_view(out@) =~= level_batches(sv, gv));
        }
        (out, records)
    }
}

/// What each batch of a list is.
pub open spec fn batches_view(s: Seq<(Vec<StepInstance>, Option<usize>)>) -> Seq<
    (Seq<InstanceView>, Option<usize>),
> {
    s.map_values(|b: (Vec<StepInstance>, Option<usize>)| (instances_view(b.0@), b.1))
}

/// The batches of a level in the order in which they run.
pub open spec fn level_batches(singles: Seq<InstanceView>, groups: Seq<GroupView>) -> Seq<
    (Seq<InstanceView>, Option<usize>),
> {
    (if singles.len() > 0 {
        seq![(singles, None::<usize>)]
    } else {
        Seq::empty()
    }) + groups.map_values(|g: GroupView| (g.1, g.2))
}

/// An input of a step that stands for the outputs of a mapped step.
#[derive(Debug)]
pub struct CollectInput {
    /// The name of the collecting step.
    pub name: String,
    pub mapped_step: String,
    pub stream: bool,
    /// The names of the instances whose outputs are collected, in order.
    pub instances: Vec<String>,
}

/// What a collected input is.
pub struct CollectView {
    pub name: Seq<char>,
    pub mapped_step: Seq<char>,
    pub stream: bool,
    pub instances: Seq<Seq<char>>,
}

impl View for CollectInput {
    type V = CollectView;

    open spec fn view(&self) -> CollectView {
        CollectView {
            name: self.name@,
            mapped_step: self.mapped_step@,
            stream: self.stream,
            instances: texts(self.instances@),
        }
    }
}

/// The names of the instances of a mapped step.
pub open spec fn instance_names(step: Seq<char>, keys: Seq<Seq<char>>) -> Seq<Seq<char>> {
    keys.map_values(|k: Seq<char>| instance_name_of(step, k))
}

/// The last step of a plan that has a name.
pub open spec fn step_named(steps: Seq<ExecutionStep>, name: Seq<char>) -> Option<ExecutionStep>
    decreases steps.len(),
{
    if steps.len() == 0 {
        None
    } else if steps.last().name@ == name {
        Some(steps.last())
    } else {
        step_named(steps.drop_last(), name)
    }
}

/// The keys of the instances of a mapped step; none where they are not recorded.
pub open spec fn mapped_keys_of(b: BatchView, step: Seq<char>) -> Seq<Seq<char>> {
    if b.mapped.dom().contains(step) {
        b.mapped[step]
    } else {
        Seq::empty()
    }
}

/// The collected input that a dependency stands for, where it is one.
pub open spec fn collect_of(
    b: BatchView,
    steps: Seq<ExecutionStep>,
    dep: Seq<char>,
) -> Option<CollectView> {
    match step_named(steps, dep) {
        Some(s) => match s.kind {
            StepKind::Collect { mapped_step } => Some(
                CollectView {
                    name: s.name@,
                    mapped_step: mapped_step@,
                    stream: false,
                    instances: instance_names(mapped_step@, mapped_keys_of(b, mapped_step@)),
                },
            ),
            StepKind::CollectStream { mapped_step, .. } => Some(
                CollectView {
                    name: s.name@,
                    mapped_step: mapped_step@,
                    stream: true,
                    instances: instance_names(mapped_step@, mapped_keys_of(b, mapped_step@)),
                },
            ),
            _ => None,
        },
        None => None,
    }
}

/// The collected inputs of a list of dependencies, in order.
pub open spec fn collects_of(
    b: BatchView,
    steps: Seq<ExecutionStep>,
    deps: Seq<Seq<char>>,
) -> Seq<CollectView>
    decreases deps.len(),
{
    if deps.len() == 0 {
        Seq::empty()
    } else {
        match collect_of(b, steps, deps.last()) {
            Some(c) => collects_of(b, steps, deps.drop_last()).push(c),
            None => collects_of(b, steps, deps.drop_last()),
        }
    }
}

/// What each collected input of a list is.
pub open spec fn collects_view(s: Seq<CollectInput>) -> Seq<CollectView> {
    s.map_values(|c: CollectInput| c@)
}

/// The step of a plan that has a name.
pub fn find_step<'a>(plan: &'a ExecutionPlan, name: &str) -> (r: Option<&'a ExecutionStep>)
    ensures
        match r {
            Some(s) => step_named(plan.steps@, name@) == Some(*s),
            None => step_named(plan.steps@, name@) is None,
        },
{
    let ghost v = plan.steps@;
    let mut j: usize = plan.steps.len();
    proof {
        assert(v.take(j as int) =~= v);
    }
    while j > 0
        invariant
            v == plan.steps@,
            j <= v.len(),
            step_named(v, name@) == step_named(v.take(j as int), name@),
        decreases j,
    {
        proof {
            assert(v.take(j as int).drop_last() =~= v.take(j - 1));
            assert(v.take(j as int).last() == v[j - 1]);
        }
        if same_text(plan.steps[j - 1].name.as_str(), name) {
            return Some(&plan.steps[j - 1]);
        }
        j -= 1;
    }
    None
}

impl Batch {
    pub(crate) fn mapped_instance_names(&self, mapped_step: &str) -> (r: Vec<String>)
        ensures
            texts(r@) == instance_names(mapped_step@, mapped_keys_of(self@, mapped_step@)),
    {
        proof {
            assert(list_map(self.mapped_instance_keys@).dom()
                =~= self.mapped_instance_keys@.dom());
        }
        let mut out: Vec<String> = Vec::new();
        if let Some(keys) = self.mapped_instance_keys.get(mapped_step) {
            let ghost t = texts(keys@);
            let mut i: usize = 0;
            while i < keys.len()
                invariant
                    t == texts(keys@),
                    i <= t.len(),
                    texts(out@) == instance_names(mapped_step@, t.take(i as int)),
                decreases t.len() - i,
            {
                let s = instance_name(mapped_step, keys[i].as_str());
                let ghost prev = texts(out@);
                let ghost e = s@;
                out.push(s);
                proof {
                    assert(texts(out@) =~= prev.push(e));
                    assert(instance_names(mapped_step@, t.take(i + 1)) =~= instance_names(
                        mapped_step@,
                        t.take(i as int),
                    ).push(e));
                }
                i += 1;
            }
            proof {
                assert(t.take(i as int) =~= t);
            }
        } else {
            proof {
                assert(texts(out@) =~= instance_names(mapped_step@, Seq::empty()));
            }
        }
        out
    }

    /// The inputs of a step that stand for the outputs of mapped steps, and the
    /// instances to load for each, in the order of its dependencies.
    pub fn resolve_collect_overrides(&self, plan: &ExecutionPlan, step: &ExecutionStep) -> (r: Vec<
        CollectInput,
    >)
        ensures
            collects_view(r@) == collects_of(
                self@,
                plan.steps@,
                texts(step.plan_dependencies@),
            ),
    {
        let ghost t = texts(step.plan_dependencies@);
        let mut out: Vec<CollectInput> = Vec::new();
        let mut i: usize = 0;
        proof {
            assert(t.take(0) =~= Seq::empty());
            assert(collects_view(out@) =~= Seq::empty());
        }
        while i < step.plan_dependencies.len()
            invariant
                t == texts(step.plan_dependencies@),
                i <= t.len(),
                collects_view(out@) == collects_of(self@, plan.steps@, t.take(i as int)),
            decreases t.len() - i,
        {
            proof {
                assert(t.take(i + 1).drop_last() =~= t.take(i as int));
                assert(t.take(i + 1).last() == step.plan_dependencies@[i as int]@);
            }
            if let Some(dep) = find_step(plan, step.plan_dependencies[i].as_str()) {
                let found: Option<(&String, bool)> = match &dep.kind {
                    StepKind::Collect { mapped_step } => Some((mapped_step, false)),
                    StepKind::CollectStream { mapped_step, .. } => Some((mapped_step, true)),
                    _ => None,
                };
                if let Some((mapped_step, stream)) = found {
                    let c = CollectInput {
                        name: dep.name.clone(),
                        mapped_step: mapped_step.clone(),
                        stream,
                        instances: self.mapped_instance_names(mapped_step.as_str()),
                    };
                    let ghost prev = collects_view(out@);
                    let ghost cv = c@;
                    out.push(c);
                    proof {
                        assert(collects_view(out@) =~= prev.push(cv));
                    }
                }
            }
            i += 1;
        }
        proof {
            assert(t.take(i as int) =~= t);
        }
        out
    }
}

/// The message of a collected input that could not be loaded.
pub fn collect_fault(name: &str, error: &str) -> (r: String)
    ensures
        r@ == "Failed to resolve collect input '"@ + name@ + "': "@ + error@,
{
    crate::text::say4("Failed to resolve collect input '", name, "': ", error)
}

} // verus!
