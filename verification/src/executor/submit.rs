//! What is sent along with a step to a worker process: where its function and its
//! handlers are found, its collected inputs, and the contexts of its outputs.
use vstd::prelude::*;
use vstd::string::*;
use crate::errors::{Fault, FaultKind, FaultView};
use crate::executor::batch::{Batch, BatchView};
use crate::executor::events::key_or_none;
use crate::executor::io::{build_partition_context, context_of, node_def};
use crate::executor::obj::{Obj, NONE_ID};
use crate::executor::orchestrate::{
    collects_view, instance_name, instance_names, mapped_keys_of, CollectInput, CollectView,
};
use crate::executor::plan::{
    nodes_wf, ExecutionPlan, ExecutionStep, NodeInfo, NodeMap, StepKind,
};
use crate::partitions::context::PartitionContext;
use crate::partitions::definition::DefView;
use crate::partitions::facts::KeyFacts;
use crate::partitions::key::{KeyView, PyPartitionKey};
use crate::text::{has_text, say3, say4, say5, split_all, split_texts, texts};

verus! {

/// A function, by its import path.
#[derive(Debug)]
pub struct PyFuncRef {
    pub module: String,
    pub qualname: String,
}

impl PyFuncRef {
    pub fn new(module: String, qualname: String) -> (r: Self)
        ensures
            r == (PyFuncRef { module, qualname }),
    {
        PyFuncRef { module, qualname }
    }

    /// What the reference is made from anew.
    pub fn reduce(self) -> (r: (String, String))
        ensures
            r == (self.module, self.qualname),
    {
        (self.module, self.qualname)
    }

    /// The printed form of the reference.
    pub fn repr(&self) -> (r: String)
        ensures
            r@ == "FuncRef("@ + self.module@ + ":"@ + self.qualname@ + ")"@,
    {
        say5("FuncRef(", self.module.as_str(), ":", self.qualname.as_str(), ")")
    }

    /// The attributes that lead from the module to the function, in order.
    pub fn attributes(&self) -> (r: Vec<String>)
        ensures
            texts(r@) == split_all(self.qualname@, '.'),
    {
        split_texts(self.qualname.as_str(), '.')
    }
}

/// The function of an object that was imported: that of an asset, that of a task, or the
/// object itself.
pub fn unwrap_callable(imported: Obj, asset_fn: Option<Obj>, task_fn: Option<Obj>) -> (r: Obj)
    ensures
        r == match asset_fn {
            Some(f) => f,
            None => match task_fn {
                Some(f) => f,
                None => imported,
            },
        },
{
    match asset_fn {
        Some(f) => f,
        None => match task_fn {
            Some(f) => f,
            None => imported,
        },
    }
}

/// An IO handler, by the import path of the definition that holds it.
#[derive(Debug)]
pub struct PyIOHandlerRef {
    pub module: String,
    pub qualname: String,
}

impl PyIOHandlerRef {
    pub fn new(module: String, qualname: String) -> (r: Self)
        ensures
            r == (PyIOHandlerRef { module, qualname }),
    {
        PyIOHandlerRef { module, qualname }
    }

    /// What the reference is made from anew.
    pub fn reduce(self) -> (r: (String, String))
        ensures
            r == (self.module, self.qualname),
    {
        (self.module, self.qualname)
    }
}

/// The handler of a definition: the one for its inner nodes, else its own, else none.
pub fn reconstruct_io_handler(node_io_handler: Option<Obj>, io_handler: Option<Obj>) -> (r: Obj)
    ensures
        r == if node_io_handler is Some && node_io_handler->0 != Obj(NONE_ID) {
            node_io_handler->0
        } else if io_handler is Some {
            io_handler->0
        } else {
            Obj(NONE_ID)
        },
{
    if let Some(h) = node_io_handler {
        if h != Obj(NONE_ID) {
            return h;
        }
    }
    if let Some(h) = io_handler {
        return h;
    }
    Obj(NONE_ID)
}

/// The outputs of the instances of a mapped step, one by one.
#[derive(Debug)]
pub struct MappedResultsIter {
    pub mapped_step: String,
    pub keys: Vec<String>,
    pub index: usize,
}

impl MappedResultsIter {
    /// The names of the instances that are still to come.
    pub open spec fn left(&self) -> Seq<Seq<char>> {
        instance_names(self.mapped_step@, texts(self.keys@)).skip(self.index as int)
    }

    pub open spec fn wf(&self) -> bool {
        self.index <= self.keys@.len()
    }

    pub fn new(mapped_step: String, keys: Vec<String>) -> (r: Self)
        ensures
            r.wf(),
            r.left() == instance_names(mapped_step@, texts(keys@)),
    {
        let r = MappedResultsIter { mapped_step, keys, index: 0 };
        proof {
            assert(r.left() =~= instance_names(mapped_step@, texts(keys@)));
        }
        r
    }

    /// The name of the next instance, whose output is to be loaded.
    pub fn next(&mut self) -> (r: Option<String>)
        requires
            old(self).wf(),
        ensures
            final(self).wf(),
            match r {
                Some(n) => old(self).left().len() > 0 && n@ == old(self).left()[0]
                    && final(self).left() == old(self).left().drop_first(),
                None => old(self).left().len() == 0 && *final(self) == *old(self),
            },
    {
        if self.index >= self.keys.len() {
            return None;
        }
        let ghost before = self.left();
        let name = instance_name(self.mapped_step.as_str(), self.keys[self.index].as_str());
        self.index = self.index + 1;
        proof {
            assert(self.left() =~= before.drop_first());
        }
        Some(name)
    }
}

/// The loads of a collected input that is read bit by bit, one by one.
#[derive(Debug)]
pub struct WorkerCollectStreamIter {
    pub specs: Vec<Obj>,
    pub index: usize,
}

impl WorkerCollectStreamIter {
    /// The loads that are still to come.
    pub open spec fn left(&self) -> Seq<Obj> {
        self.specs@.skip(self.index as int)
    }

    pub open spec fn wf(&self) -> bool {
        self.index <= self.specs@.len()
    }

    pub fn new(specs: Vec<Obj>) -> (r: Self)
        ensures
            r.wf(),
            r.left() == specs@,
    {
        let r = WorkerCollectStreamIter { specs, index: 0 };
        proof {
            assert(r.left() =~= specs@);
        }
        r
    }

    /// The next load.
    pub fn next(&mut self) -> (r: Option<Obj>)
        requires
            old(self).wf(),
        ensures
            final(self).wf(),
            match r {
                Some(s) => old(self).left().len() > 0 && s == old(self).left()[0]
                    && final(self).left() == old(self).left().drop_first(),
                None => old(self).left().len() == 0 && *final(self) == *old(self),
            },
    {
        if self.index >= self.specs.len() {
            return None;
        }
        let ghost before = self.left();
        let spec_of = self.specs[self.index];
        self.index = self.index + 1;
        proof {
            assert(self.left() =~= before.drop_first());
        }
        Some(spec_of)
    }
}

/// The collected input that a step of the plan stands for.
pub open spec fn collected_by(b: BatchView, s: ExecutionStep) -> Option<CollectView> {
    match s.kind {
        StepKind::Collect { mapped_step } => Some(
            CollectView {
                name: s.name@,
                mapped_step: mapped_step@,
                stream: false,
                instances: instance_names(mapped_step@, mapped_keys_of(b, mapped_step@)),
            },
        ),
        StepKind::CollectStream { mapped_step, .. } => Some(
            CollectView {
                name: s.name@,
                mapped_step: mapped_step@,
                stream: true,
                instances: instance_names(mapped_step@, mapped_keys_of(b, mapped_step@)),
            },
        ),
        _ => None,
    }
}

/// The collected inputs that a step depends on, in the order of the plan.
pub open spec fn collected_in_plan(
    b: BatchView,
    steps: Seq<ExecutionStep>,
    deps: Seq<Seq<char>>,
) -> Seq<CollectView>
    decreases steps.len(),
{
    if steps.len() == 0 {
        Seq::empty()
    } else {
        let before = collected_in_plan(b, steps.drop_last(), deps);
        if deps.contains(steps.last().name@) {
            match collected_by(b, steps.last()) {
                Some(c) => before.push(c),
                None => before,
            }
        } else {
            before
        }
    }
}

impl Batch {
    /// The inputs of a step that stand for the outputs of mapped steps, and the
    /// instances that a worker loads for each, in the order of the plan.
    pub fn build_collect_input_overrides(
        &self,
        plan: &ExecutionPlan,
        step: &ExecutionStep,
    ) -> (r: Vec<CollectInput>)
        ensures
            collects_view(r@) == collected_in_plan(
                self@,
                plan.steps@,
                texts(step.plan_dependencies@),
            ),
    {
        let ghost v = plan.steps@;
        let ghost deps = texts(step.plan_dependencies@);
        let mut out: Vec<CollectInput> = Vec::new();
        let mut i: usize = 0;
        proof {
            assert(v.take(0) =~= Seq::empty());
            assert(collects_view(out@) =~= Seq::empty());
        }
        while i < plan.steps.len()
            invariant
                v == plan.steps@,
                deps == texts(step.plan_dependencies@),
                i <= v.len(),
                collects_view(out@) == collected_in_plan(self@, v.take(i as int), deps),
            decreases v.len() - i,
        {
            proof {
                assert(v.take(i + 1).drop_last() =~= v.take(i as int));
                assert(v.take(i + 1).last() == v[i as int]);
            }
            let dep = &plan.steps[i];
            if has_text(&step.plan_dependencies, dep.name.as_str()) {
                let found: Option<(&String, bool)> = match &dep.kind {
                    StepKind::Collect { mapped_step } => Some((mapped_step, false)),
                    StepKind::CollectStream { mapped_step, .. } => Some((mapped_step, true)),
                    _ => None,
                };
                if let Some((mapped_step, stream)) = found {
                    let c = CollectInput {
                        name: dep.name.clone(),
                        mapped_step: mapped_step.clone(),
                        stream,
                        instances: self.mapped_instance_names(mapped_step.as_str()),
                    };
                    let ghost prev = collects_view(out@);
                    let ghost cv = c@;
                    out.push(c);
                    proof {
                        assert(collects_view(out@) =~= prev.push(cv));
                    }
                }
            }
            i += 1;
        }
        proof {
            assert(v.take(i as int) =~= v);
        }
        out
    }

    /// A collected input of a step cannot be described to a worker: the step fails and
    /// is not run.
    pub fn collect_spec_failed(&mut self, step_name: &str, input: &str, error: &str, ts: i64)
        requires
            old(self).wf(),
        ensures
            final(self).wf(),
            final(self)@ == crate::executor::batch::recorded_failure(
                old(self)@,
                step_name@,
                crate::executor::batch::execution_error(
                    "Failed to build collect spec for '"@ + input@ + "': "@ + error@,
                ),
                old(self)@.own_class,
                ts,
            ),
    {
        self.record_own_failure(
            step_name,
            say4("Failed to build collect spec for '", input, "': ", error),
            ts,
        );
    }
}

/// The context in which a worker writes an output.
#[derive(Debug)]
pub struct OutputSpec {
    pub name: String,
    pub partition: Option<PartitionContext>,
}

/// What a context in which an output is written says.
pub open spec fn output_spec_view(s: OutputSpec) -> (Seq<char>, Option<(KeyView, DefView)>) {
    (
        s.name@,
        match s.partition {
            Some(c) => Some((c.keys@[0]@, c.definition@)),
            None => None,
        },
    )
}

/// What each of a list of contexts says.
pub open spec fn output_specs_view(s: Seq<OutputSpec>) -> Seq<
    (Seq<char>, Option<(KeyView, DefView)>),
> {
    s.map_values(|o: OutputSpec| output_spec_view(o))
}

/// The name that messages give a node: its own, where it has one.
pub open spec fn shown_name(n: NodeInfo, name: Seq<char>) -> Seq<char> {
    match n.name {
        Some(own) => own@,
        None => name,
    }
}

fn name_to_show<'a>(node: &'a NodeInfo, name: &'a str) -> (r: &'a str)
    ensures
        r@ == shown_name(*node, name@),
{
    match &node.name {
        Some(own) => own.as_str(),
        None => name,
    }
}

/// The context in which a worker writes the output of a step with one output: none
/// where it has no handler.
pub fn build_single_output_spec(
    output_name: &str,
    step_name: &str,
    node: &NodeInfo,
    has_handler: bool,
    partition_key: &Option<PyPartitionKey>,
    facts: &KeyFacts,
) -> (r: Result<Option<OutputSpec>, Fault>)
    requires
        node.wf(),
        partition_key matches Some(k) ==> k.wf(),
        facts.wf(),
    ensures
        if !has_handler {
            r matches Ok(None)
        } else {
            match context_of(
                shown_name(*node, step_name@),
                node_def(*node),
                key_or_none(*partition_key),
                true,
                *facts,
            ) {
                Ok(c) => r matches Ok(Some(s)) && output_spec_view(s) == (output_name@, c),
                Err(e) => r matches Err(f) && f@ == e,
            }
        },
{
    if !has_handler {
        return Ok(None);
    }
    match build_partition_context(name_to_show(node, step_name), node, partition_key, facts) {
        Ok(partition) => Ok(Some(OutputSpec { name: output_name.to_owned(), partition })),
        Err(e) => Err(e),
    }
}

/// The contexts in which the outputs of a multi-asset are written, or why one has none.
pub open spec fn multi_specs(
    outputs: Seq<Seq<char>>,
    nodes: Map<Seq<char>, NodeInfo>,
    key: Option<KeyView>,
    facts: KeyFacts,
) -> Result<Seq<(Seq<char>, Option<(KeyView, DefView)>)>, FaultView>
    decreases outputs.len(),
{
    if outputs.len() == 0 {
        Ok(Seq::empty())
    } else {
        match multi_specs(outputs.drop_last(), nodes, key, facts) {
            Err(e) => Err(e),
            Ok(v) => {
                let name = outputs.last();
                if !nodes.dom().contains(name) {
                    Err((FaultKind::Key, "Multi-asset output '"@ + name + "' not in node_map"@))
                } else {
                    match context_of(
                        shown_name(nodes[name], name),
                        node_def(nodes[name]),
                        key,
                        true,
                        facts,
                    ) {
                        Ok(c) => Ok(v.push((name, c))),
                        Err(e) => Err(e),
                    }
                }
            },
        }
    }
}

proof fn lemma_multi_specs_prefix(
    outputs: Seq<Seq<char>>,
    nodes: Map<Seq<char>, NodeInfo>,
    key: Option<KeyView>,
    facts: KeyFacts,
    n: int,
)
    requires
        0 <= n <= outputs.len(),
        multi_specs(outputs.take(n), nodes, key, facts) is Err,
    ensures
        multi_specs(outputs, nodes, key, facts) == multi_specs(
            outputs.take(n),
            nodes,
            key,
            facts,
        ),
    decreases outputs.len(),
{
    if n < outputs.len() {
        assert(outputs.drop_last().take(n) =~= outputs.take(n));
        lemma_multi_specs_prefix(outputs.drop_last(), nodes, key, facts, n);
    } else {
        assert(outputs.take(n) =~= outputs);
    }
}

/// The contexts in which a worker writes the outputs of a multi-asset.
pub fn build_multi_output_specs(
    outputs: &Vec<String>,
    nodes: &NodeMap,
    partition_key: &Option<PyPartitionKey>,
    facts: &KeyFacts,
) -> (r: Result<Vec<OutputSpec>, Fault>)
    requires
        nodes_wf(nodes@),
        partition_key matches Some(k) ==> k.wf(),
        facts.wf(),
    ensures
        match r {
            Ok(v) => multi_specs(
                texts(outputs@),
                nodes@,
                key_or_none(*partition_key),
                *facts,
            ) == Ok::<Seq<(Seq<char>, Option<(KeyView, DefView)>)>, FaultView>(
                output_specs_view(v@),
            ),
            Err(e) => multi_specs(
                texts(outputs@),
                nodes@,
                key_or_none(*partition_key),
                *facts,
            ) == Err::<Seq<(Seq<char>, Option<(KeyView, DefView)>)>, FaultView>(e@),
        },
{
    let ghost t = texts(outputs@);
    let ghost key = key_or_none(*partition_key);
    let mut out: Vec<OutputSpec> = Vec::new();
    let mut i: usize = 0;
    proof {
        assert(t.take(0) =~= Seq::empty());
        assert(output_specs_view(out@) =~= Seq::empty());
    }
    while i < outputs.len()
        invariant
            t == texts(outputs@),
            key == key_or_none(*partition_key),
            nodes_wf(nodes@),
            partition_key matches Some(k) ==> k.wf(),
            facts.wf(),
            i <= t.len(),
            multi_specs(t.take(i as int), nodes@, key, *facts) == Ok::<
                Seq<(Seq<char>, Option<(KeyView, DefView)>)>,
                FaultView,
            >(output_specs_view(out@)),
        decreases t.len() - i,
    {
        proof {
            assert(t.take(i + 1).drop_last() =~= t.take(i as int));
            assert(t.take(i + 1).last() == outputs@[i as int]@);
            if multi_specs(t.take(i + 1), nodes@, key, *facts) is Err {
                lemma_multi_specs_prefix(t, nodes@, key, *facts, i + 1);
            }
        }
        let name = outputs[i].as_str();
        let node = match nodes.get(name) {
            Some(n) => n,
            None => {
                return Err(
                    Fault::new(
                        FaultKind::Key,
                        say3("Multi-asset output '", name, "' not in node_map"),
                    ),
                );
            },
        };
        proof {
            assert(nodes@[name@].wf());
        }
        match build_partition_context(name_to_show(node, name), node, partition_key, facts) {
            Ok(partition) => {
                let s = OutputSpec { name: name.to_owned(), partition };
                let ghost prev = output_specs_view(out@);
                let ghost sv = output_spec_view(s);
                out.push(s);
                proof {
                    assert(output_specs_view(out@) =~= prev.push(sv));
                }
            },
            Err(e) => {
                return Err(e);
            },
        }
        i += 1;
    }
    proof {
        assert(t.take(i as int) =~= t);
    }
    Ok(out)
}

} // verus!
