//! How the arguments of a step are put together from its parameters.
use vstd::prelude::*;
use vstd::string::*;
use crate::errors::{Fault, FaultKind, FaultView};
use crate::executor::batch::text_map;
use crate::executor::plan::{ExecutionStep, NodeInfo, NodeMap};
use crate::names::{NameMap, NameSet};
use crate::text::{same_text, say3, say5};

verus! {

/// A parameter of a step's function: its name, and what its annotation says.
#[derive(Debug)]
pub struct Param {
    pub name: String,
    pub annotated: bool,
    /// The annotation asks for an execution context.
    pub is_ctx: bool,
    /// It asks for that of a task.
    pub is_task_ctx: bool,
    /// It names a configuration.
    pub has_config: bool,
}

/// A parameter as the function declares it.
#[derive(Debug)]
pub struct Declared {
    pub param: Param,
    /// It collects what is left over.
    pub variadic: bool,
    pub has_default: bool,
}

/// The parameters that are given an argument: those that neither have a default nor
/// collect what is left over, in order.
pub open spec fn injectable(s: Seq<Declared>) -> Seq<Param>
    decreases s.len(),
{
    if s.len() == 0 {
        Seq::empty()
    } else if s.last().variadic || s.last().has_default {
        injectable(s.drop_last())
    } else {
        injectable(s.drop_last()).push(s.last().param)
    }
}

/// The parameters of a function that are given an argument.
pub fn enumerate_params(declared: Vec<Declared>) -> (r: Vec<Param>)
    ensures
        r@ == injectable(declared@),
{
    let ghost src = declared@;
    let mut rest = declared;
    let mut out: Vec<Param> = Vec::new();
    let ghost mut n: int = 0;
    proof {
        assert(src.take(0) =~= Seq::empty());
        assert(src.skip(0) =~= src);
    }
    while rest.len() > 0
        invariant
            0 <= n <= src.len(),
            rest@ == src.skip(n),
            out@ == injectable(src.take(n)),
        decreases rest@.len(),
    {
        let d = rest.remove(0);
        proof {
            assert(src.skip(n)[0] == src[n]);
            assert(rest@ =~= src.skip(n + 1));
            assert(src.take(n + 1).drop_last() =~= src.take(n));
            assert(src.take(n + 1).last() == src[n]);
            n = n + 1;
        }
        if !d.variadic && !d.has_default {
            out.push(d.param);
        }
    }
    proof {
        assert(src.take(n) =~= src);
    }
    out
}

/// What is done for a parameter.
#[derive(Debug)]
pub enum ArgAction {
    /// Resolve the configuration that the annotation of the parameter names.
    Config(usize),
    /// Make the execution context under this name: of a task, or of an asset.
    Context { task: bool, name: String },
    /// Load the step's own previous output.
    SelfDependency(usize),
    /// Take the input that was given under this name.
    Override(String),
    /// Load the upstream of this name for the parameter of this number.
    Upstream(String, usize),
    /// Take a resource, configured anew where the flag holds.
    Resource(String, bool),
    /// Leave the place for the item of a fan-out.
    FanOut,
}

/// What an action says.
pub enum ActionView {
    Config(int),
    Context(bool, Seq<char>),
    SelfDependency(int),
    Override(Seq<char>),
    Upstream(Seq<char>, int),
    Resource(Seq<char>, bool),
    FanOut,
}

impl View for ArgAction {
    type V = ActionView;

    open spec fn view(&self) -> ActionView {
        match *self {
            ArgAction::Config(i) => ActionView::Config(i as int),
            ArgAction::Context { task, name } => ActionView::Context(task, name@),
            ArgAction::SelfDependency(i) => ActionView::SelfDependency(i as int),
            ArgAction::Override(n) => ActionView::Override(n@),
            ArgAction::Upstream(n, i) => ActionView::Upstream(n@, i as int),
            ArgAction::Resource(n, o) => ActionView::Resource(n@, o),
            ArgAction::FanOut => ActionView::FanOut,
        }
    }
}

/// What each action of a list says.
pub open spec fn actions_view(s: Seq<ArgAction>) -> Seq<ActionView> {
    s.map_values(|a: ArgAction| a@)
}

/// The arguments of a step: what is done for them, in order, and the fault that is
/// raised once all of that has succeeded.
#[derive(Debug)]
pub struct ArgPlan {
    pub actions: Vec<ArgAction>,
    pub fault: Option<Fault>,
    /// Whether the first parameter is the context.
    pub context_injected: bool,
}

/// How far the parameters of a step have been planned.
pub struct PlanState {
    pub actions: Seq<ActionView>,
    pub fault: Option<FaultView>,
    /// No parameter has been seen.
    pub first: bool,
    /// A configuration has been resolved.
    pub config: bool,
    pub injected: bool,
}

/// A plan of nothing.
pub open spec fn empty_plan() -> PlanState {
    PlanState {
        actions: Seq::empty(),
        fault: None,
        first: true,
        config: false,
        injected: false,
    }
}

/// What a step offers its parameters.
#[derive(Debug)]
pub struct Offers<'a> {
    pub step_name: &'a str,
    /// The name of the step's asset context: its own, or that of its multi-asset. The
    /// context of a task goes under the name of the step.
    pub context_name: &'a str,
    pub nodes: &'a NodeMap,
    pub param_remap: &'a NameMap<String>,
    pub overrides: &'a NameSet,
    pub resources: &'a NameSet,
    /// The step has a configuration of its own.
    pub config_overrides: bool,
    /// The source of a map instance.
    pub fan_out_source: Option<&'a str>,
    /// The step runs in a worker process.
    pub worker: bool,
}

/// What a step offers, as it is.
pub struct OfferView {
    pub step: Seq<char>,
    pub context: Seq<char>,
    pub nodes: Set<Seq<char>>,
    pub remap: Map<Seq<char>, Seq<char>>,
    pub overrides: Set<Seq<char>>,
    pub resources: Set<Seq<char>>,
    pub config_overrides: bool,
    pub source: Option<Seq<char>>,
    pub worker: bool,
}

impl<'a> View for Offers<'a> {
    type V = OfferView;

    open spec fn view(&self) -> OfferView {
        OfferView {
            step: self.step_name@,
            context: self.context_name@,
            nodes: self.nodes@.dom(),
            remap: text_map(self.param_remap@),
            overrides: self.overrides@,
            resources: self.resources@,
            config_overrides: self.config_overrides,
            source: match self.fan_out_source {
                Some(n) => Some(n@),
                None => None,
            },
            worker: self.worker,
        }
    }
}

/// The name by which a parameter is looked up.
pub open spec fn resolved_name(o: OfferView, name: Seq<char>) -> Seq<char> {
    if o.remap.dom().contains(name) {
        o.remap[name]
    } else {
        name
    }
}

/// The message of a context that is not the first parameter.
pub open spec fn late_context(step: Seq<char>) -> FaultView {
    (FaultKind::Execution, "Context must be the first parameter of '"@ + step + "'"@)
}

/// Whether a parameter takes the context.
pub open spec fn takes_context(o: OfferView, p: Param, first: bool) -> bool {
    first && (p.is_ctx || (p.name@ == "context"@ && !o.nodes.contains("context"@)))
}

/// What a parameter that does not take the context is given, or why it is given
/// nothing. In a worker one that matches nothing is left out.
pub open spec fn input_for(o: OfferView, p: Param, i: int) -> Result<
    Option<ActionView>,
    FaultView,
> {
    let name = resolved_name(o, p.name@);
    if p.name@ == "self"@ {
        if p.annotated {
            Ok(Some(ActionView::SelfDependency(i)))
        } else {
            Err(
                (
                    FaultKind::Execution,
                    "Asset '"@ + o.step
                        + "': `self` parameter requires a `SelfDependency[T]` annotation"@,
                ),
            )
        }
    } else if o.worker && o.source == Some(name) {
        Ok(Some(ActionView::FanOut))
    } else if o.overrides.contains(name) {
        Ok(Some(ActionView::Override(name)))
    } else if o.nodes.contains(name) {
        Ok(Some(ActionView::Upstream(name, i)))
    } else if o.resources.contains(p.name@) {
        Ok(Some(ActionView::Resource(p.name@, !o.worker && o.config_overrides)))
    } else if o.worker {
        Ok(None)
    } else {
        Err(
            (
                FaultKind::Configuration,
                "Asset '"@ + o.step + "': parameter '"@ + p.name@
                    + "' does not match any upstream asset or resource"@,
            ),
        )
    }
}

/// A plan after its configuration was looked for. In place that happens for every
/// context until there is one; in a worker for the injected context alone.
pub open spec fn config_planned(o: OfferView, s: PlanState, p: Param, i: int) -> PlanState {
    if p.is_ctx && p.has_config && !s.config && (!o.worker || takes_context(o, p, s.first)) {
        PlanState { actions: s.actions.push(ActionView::Config(i)), config: true, ..s }
    } else {
        s
    }
}

/// A plan after one more parameter.
pub open spec fn planned(o: OfferView, s: PlanState, p: Param, i: int) -> PlanState {
    if s.fault is Some || p.name@ == "return"@ {
        s
    } else {
        let c = config_planned(o, s, p, i);
        let after = PlanState { first: false, ..c };
        if takes_context(o, p, s.first) {
            PlanState {
                actions: c.actions.push(
                    if !o.worker && p.is_task_ctx {
                        ActionView::Context(true, o.step)
                    } else {
                        ActionView::Context(false, o.context)
                    },
                ),
                injected: true,
                ..after
            }
        } else if p.is_ctx {
            PlanState { fault: Some(late_context(o.step)), ..after }
        } else {
            match input_for(o, p, i) {
                Ok(Some(a)) => PlanState { actions: c.actions.push(a), ..after },
                Ok(None) => after,
                Err(f) => PlanState { fault: Some(f), ..after },
            }
        }
    }
}

/// The plan of a list of parameters.
pub open spec fn plan_of(o: OfferView, params: Seq<Param>) -> PlanState
    decreases params.len(),
{
    if params.len() == 0 {
        empty_plan()
    } else {
        planned(o, plan_of(o, params.drop_last()), params.last(), params.len() - 1)
    }
}

/// A fault ends the plan.
proof fn lemma_plan_fault(o: OfferView, params: Seq<Param>, n: int)
    requires
        0 <= n <= params.len(),
        plan_of(o, params.take(n)).fault is Some,
    ensures
        plan_of(o, params) == plan_of(o, params.take(n)),
    decreases params.len(),
{
    if n < params.len() {
        assert(params.drop_last().take(n) =~= params.take(n));
        lemma_plan_fault(o, params.drop_last(), n);
    } else {
        assert(params.take(n) =~= params);
    }
}

/// The context comes first or not at all: no plan makes it after anything but the
/// configuration that it carries.
pub proof fn lemma_context_first(o: OfferView, params: Seq<Param>)
    ensures
        ({
            let s = plan_of(o, params);
            &&& s.first ==> s.actions.len() == 0 && !s.injected
            &&& forall|i: int|
                0 <= i < s.actions.len() && (#[trigger] s.actions[i]) is Context ==> i == 0 || (i
                    == 1 && s.actions[0] is Config)
            &&& s.injected <==> exists|i: int|
                0 <= i < s.actions.len() && (#[trigger] s.actions[i]) is Context
        }),
    decreases params.len(),
{
    if params.len() > 0 {
        let w = params.drop_last();
        lemma_context_first(o, w);
        let s = plan_of(o, w);
        let p = params.last();
        let i = params.len() - 1;
        let r = plan_of(o, params);
        if s.fault is None && p.name@ != "return"@ {
            let c = config_planned(o, s, p, i);
            assert forall|k: int| 0 <= k < r.actions.len() && (
            #[trigger] r.actions[k]) is Context implies k == 0 || (k == 1
                && r.actions[0] is Config) by {
                if k < s.actions.len() {
                    assert(s.actions[k] is Context);
                }
            }
            if r.injected {
                if s.injected {
                    let k = choose|k: int|
                        0 <= k < s.actions.len() && (#[trigger] s.actions[k]) is Context;
                    assert(r.actions[k] is Context);
                } else {
                    assert(r.actions[r.actions.len() - 1] is Context);
                }
            }
            if exists|k: int| 0 <= k < r.actions.len() && (#[trigger] r.actions[k]) is Context {
                let k = choose|k: int|
                    0 <= k < r.actions.len() && (#[trigger] r.actions[k]) is Context;
                if k < s.actions.len() {
                    assert(s.actions[k] is Context);
                }
            }
        }
    }
}

fn find_name(o: &Offers<'_>, name: &str) -> (r: String)
    ensures
        r@ == resolved_name(o@, name@),
{
    proof {
        assert(text_map(o.param_remap@).dom() =~= o.param_remap@.dom());
    }
    match o.param_remap.get(name) {
        Some(n) => n.clone(),
        None => name.to_owned(),
    }
}

fn find_input(o: &Offers<'_>, p: &Param, i: usize) -> (r: Result<Option<ArgAction>, Fault>)
    ensures
        match r {
            Ok(Some(a)) => input_for(o@, *p, i as int) == Ok::<Option<ActionView>, FaultView>(
                Some(a@),
            ),
            Ok(None) => input_for(o@, *p, i as int) == Ok::<Option<ActionView>, FaultView>(None),
            Err(e) => input_for(o@, *p, i as int) == Err::<Option<ActionView>, FaultView>(e@),
        },
{
    if same_text(p.name.as_str(), "self") {
        return if p.annotated {
            Ok(Some(ArgAction::SelfDependency(i)))
        } else {
            Err(
                Fault::execution(
                    say3(
                        "Asset '",
                        o.step_name,
                        "': `self` parameter requires a `SelfDependency[T]` annotation",
                    ),
                ),
            )
        };
    }
    let name = find_name(o, p.name.as_str());
    if o.worker {
        if let Some(source) = o.fan_out_source {
            if same_text(source, name.as_str()) {
                return Ok(Some(ArgAction::FanOut));
            }
        }
    }
    if o.overrides.contains(name.as_str()) {
        return Ok(Some(ArgAction::Override(name)));
    }
    if o.nodes.contains(name.as_str()) {
        return Ok(Some(ArgAction::Upstream(name, i)));
    }
    if o.resources.contains(p.name.as_str()) {
        return Ok(
            Some(ArgAction::Resource(p.name.clone(), !o.worker && o.config_overrides)),
        );
    }
    if o.worker {
        return Ok(None);
    }
    Err(
        Fault::new(
            FaultKind::Configuration,
            say5(
                "Asset '",
                o.step_name,
                "': parameter '",
                p.name.as_str(),
                "' does not match any upstream asset or resource",
            ),
        ),
    )
}

/// Whether a plan is that of a state.
pub open spec fn is_plan(r: ArgPlan, s: PlanState) -> bool {
    &&& actions_view(r.actions@) == s.actions
    &&& match r.fault {
        Some(f) => s.fault == Some(f@),
        None => s.fault is None,
    }
    &&& r.context_injected == s.injected
}

fn push_action(v: &mut Vec<ArgAction>, a: ArgAction)
    ensures
        actions_view(final(v)@) == actions_view(old(v)@).push(a@),
{
    let ghost prev = actions_view(v@);
    let ghost av = a@;
    v.push(a);
    proof {
        assert(actions_view(v@) =~= prev.push(av));
    }
}

/// Plans the arguments of a step: the context first, where it is asked for, then for
/// each parameter the input, upstream or resource that it names.
pub fn plan_args(o: &Offers<'_>, params: &Vec<Param>) -> (r: ArgPlan)
    ensures
        is_plan(r, plan_of(o@, params@)),
{
    let ghost ps = params@;
    let mut actions: Vec<ArgAction> = Vec::new();
    let mut first = true;
    let mut config = false;
    let mut injected = false;
    let mut i: usize = 0;
    proof {
        assert(ps.take(0) =~= Seq::empty());
        assert(actions_view(actions@) =~= Seq::empty());
    }
    while i < params.len()
        invariant
            ps == params@,
            i <= ps.len(),
            plan_of(o@, ps.take(i as int)) == (PlanState {
                actions: actions_view(actions@),
                fault: None,
                first,
                config,
                injected,
            }),
        decreases ps.len() - i,
    {
        proof {
            assert(ps.take(i + 1).drop_last() =~= ps.take(i as int));
            assert(ps.take(i + 1).last() == ps[i as int]);
            if plan_of(o@, ps.take(i + 1)).fault is Some {
                lemma_plan_fault(o@, ps, i + 1);
            }
        }
        let p = &params[i];
        if !same_text(p.name.as_str(), "return") {
            let context = first && (p.is_ctx || (same_text(p.name.as_str(), "context")
                && !o.nodes.contains("context")));
            if p.is_ctx && p.has_config && !config && (!o.worker || context) {
                push_action(&mut actions, ArgAction::Config(i));
                config = true;
            }
            first = false;
            if context {
                push_action(
                    &mut actions,
                    if !o.worker && p.is_task_ctx {
                        ArgAction::Context { task: true, name: o.step_name.to_owned() }
                    } else {
                        ArgAction::Context { task: false, name: o.context_name.to_owned() }
                    },
                );
                injected = true;
            } else if p.is_ctx {
                return ArgPlan {
                    actions,
                    fault: Some(
                        Fault::execution(
                            say3("Context must be the first parameter of '", o.step_name, "'"),
                        ),
                    ),
                    context_injected: injected,
                };
            } else {
                match find_input(o, p, i) {
                    Ok(Some(a)) => {
                        push_action(&mut actions, a);
                    },
                    Ok(None) => {},
                    Err(f) => {
                        return ArgPlan { actions, fault: Some(f), context_injected: injected };
                    },
                }
            }
        }
        i += 1;
    }
    proof {
        assert(ps.take(i as int) =~= ps);
    }
    ArgPlan { actions, fault: None, context_injected: injected }
}

/// The name under which the context of a step goes: for several outputs the own name
/// of the node, where it has one.
pub open spec fn context_name_of(step: Seq<char>, outputs: nat, node: NodeInfo) -> Seq<char> {
    if outputs > 0 {
        match node.name {
            Some(n) => n@,
            None => step,
        }
    } else {
        step
    }
}

/// The name under which the context of a step goes.
pub fn context_name(step_name: &str, outputs: &Vec<String>, node: &NodeInfo) -> (r: String)
    ensures
        r@ == context_name_of(step_name@, outputs@.len(), *node),
{
    if outputs.len() > 0 {
        match &node.name {
            Some(n) => n.clone(),
            None => step_name.to_owned(),
        }
    } else {
        step_name.to_owned()
    }
}

/// What a step offers that runs in this process.
pub open spec fn own_offers(
    step: ExecutionStep,
    node: NodeInfo,
    nodes: Map<Seq<char>, NodeInfo>,
    overrides: Set<Seq<char>>,
    resources: Set<Seq<char>>,
    config_overrides: bool,
) -> OfferView {
    OfferView {
        step: step.name@,
        context: context_name_of(step.name@, step.outputs@.len(), node),
        nodes: nodes.dom(),
        remap: text_map(node.param_remap@),
        overrides,
        resources,
        config_overrides,
        source: None,
        worker: false,
    }
}

/// Plans the arguments of a step that runs in this process.
pub fn build_step_args(
    step: &ExecutionStep,
    node: &NodeInfo,
    nodes: &NodeMap,
    overrides: &NameSet,
    resources: &NameSet,
    config_overrides: bool,
    params: &Vec<Param>,
) -> (r: ArgPlan)
    ensures
        is_plan(
            r,
            plan_of(
                own_offers(*step, *node, nodes@, overrides@, resources@, config_overrides),
                params@,
            ),
        ),
{
    let name = context_name(step.name.as_str(), &step.outputs, node);
    let o = Offers {
        step_name: step.name.as_str(),
        context_name: name.as_str(),
        nodes,
        param_remap: &node.param_remap,
        overrides,
        resources,
        config_overrides,
        fan_out_source: None,
        worker: false,
    };
    plan_args(&o, params)
}

/// What a step offers that runs in a worker. `outputs` are those that it is to
/// produce, none for a map instance.
pub open spec fn worker_offers(
    step: Seq<char>,
    outputs: nat,
    node: NodeInfo,
    nodes: Map<Seq<char>, NodeInfo>,
    overrides: Set<Seq<char>>,
    resources: Set<Seq<char>>,
    source: Option<Seq<char>>,
) -> OfferView {
    OfferView {
        step,
        context: context_name_of(step, outputs, node),
        nodes: nodes.dom(),
        remap: text_map(node.param_remap@),
        overrides,
        resources,
        config_overrides: false,
        source,
        worker: true,
    }
}

/// The place of each argument: how many arguments come before the action of a number.
/// The context and its configuration are not among the arguments of a worker.
pub open spec fn args_before(actions: Seq<ActionView>, n: int) -> nat
    decreases n,
{
    if n <= 0 {
        0
    } else {
        args_before(actions, n - 1) + if 0 <= n - 1 < actions.len() && (actions[n - 1] is Config
            || actions[n - 1] is Context) {
            0nat
        } else {
            1nat
        }
    }
}

/// The resources of a worker, each with the place of its argument.
pub open spec fn resource_places(actions: Seq<ActionView>, n: int) -> Seq<(int, Seq<char>)>
    decreases n,
{
    if n <= 0 {
        Seq::empty()
    } else {
        match actions[n - 1] {
            ActionView::Resource(name, _) => resource_places(actions, n - 1).push(
                (args_before(actions, n - 1) as int, name),
            ),
            _ => resource_places(actions, n - 1),
        }
    }
}

/// The place of the argument that takes the item of a fan-out; the last one counts.
pub open spec fn fan_out_place(actions: Seq<ActionView>, n: int) -> Option<int>
    decreases n,
{
    if n <= 0 {
        None
    } else if actions[n - 1] is FanOut {
        Some(args_before(actions, n - 1) as int)
    } else {
        fan_out_place(actions, n - 1)
    }
}

/// The arguments of a step that runs in a worker: what is done for them, and the
/// places that are filled there or before the step is sent.
#[derive(Debug)]
pub struct WorkerArgs {
    pub plan: ArgPlan,
    pub resource_positions: Vec<(usize, String)>,
    pub fan_out_arg_index: Option<usize>,
}

/// What each place of a list is.
pub open spec fn places_view(v: Seq<(usize, String)>) -> Seq<(int, Seq<char>)> {
    v.map_values(|p: (usize, String)| (p.0 as int, p.1@))
}

/// Plans the arguments of a step that runs in a worker. A shell task has none.
pub fn resolve_worker_args(
    step_name: &str,
    outputs: &Vec<String>,
    node: &NodeInfo,
    nodes: &NodeMap,
    overrides: &NameSet,
    resources: &NameSet,
    fan_out_source: Option<&str>,
    params: &Vec<Param>,
) -> (r: WorkerArgs)
    ensures
        ({
            let s = if node.is_bash_task {
                empty_plan()
            } else {
                plan_of(
                    worker_offers(
                        step_name@,
                        outputs@.len(),
                        *node,
                        nodes@,
                        overrides@,
                        resources@,
                        match fan_out_source {
                            Some(n) => Some(n@),
                            None => None,
                        },
                    ),
                    params@,
                )
            };
            let n = s.actions.len() as int;
            &&& is_plan(r.plan, s)
            &&& places_view(r.resource_positions@) == resource_places(s.actions, n)
            &&& match r.fan_out_arg_index {
                Some(i) => fan_out_place(s.actions, n) == Some(i as int),
                None => fan_out_place(s.actions, n) is None,
            }
        }),
{
    if node.is_bash_task {
        let r = WorkerArgs {
            plan: ArgPlan { actions: Vec::new(), fault: None, context_injected: false },
            resource_positions: Vec::new(),
            fan_out_arg_index: None,
        };
        proof {
            assert(actions_view(r.plan.actions@) =~= Seq::empty());
            assert(places_view(r.resource_positions@) =~= Seq::empty());
        }
        return r;
    }
    let name = context_name(step_name, outputs, node);
    let o = Offers {
        step_name,
        context_name: name.as_str(),
        nodes,
        param_remap: &node.param_remap,
        overrides,
        resources,
        config_overrides: false,
        fan_out_source,
        worker: true,
    };
    let plan = plan_args(&o, params);
    let ghost acts = actions_view(plan.actions@);
    let mut positions: Vec<(usize, String)> = Vec::new();
    let mut fan_out: Option<usize> = None;
    let mut place: usize = 0;
    let mut i: usize = 0;
    proof {
        assert(places_view(positions@) =~= Seq::empty());
    }
    while i < plan.actions.len()
        invariant
            acts == actions_view(plan.actions@),
            i <= acts.len(),
            place <= i,
            place == args_before(acts, i as int),
            places_view(positions@) == resource_places(acts, i as int),
            match fan_out {
                Some(k) => fan_out_place(acts, i as int) == Some(k as int),
                None => fan_out_place(acts, i as int) is None,
            },
        decreases acts.len() - i,
    {
        proof {
            assert(acts[i as int] == plan.actions@[i as int]@);
        }
        match &plan.actions[i] {
            ArgAction::Config(_) => {},
            ArgAction::Context { .. } => {},
            ArgAction::Resource(n, _) => {
                let ghost prev = places_view(positions@);
                positions.push((place, n.clone()));
                proof {
                    assert(places_view(positions@) =~= prev.push((place as int, n@)));
                }
                place += 1;
            },
            ArgAction::FanOut => {
                fan_out = Some(place);
                place += 1;
            },
            _ => {
                place += 1;
            },
        }
        i += 1;
    }
    WorkerArgs { plan, resource_positions: positions, fan_out_arg_index: fan_out }
}

} // verus!
