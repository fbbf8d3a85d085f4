//! What each parameter of a step is given, and where the arguments of a worker stand.
use vstd::prelude::*;
use crate::errors::{FaultKind, FaultView};
use crate::executor::args::{
    args_before, context_name_of, fan_out_place, injectable, input_for, own_offers, plan_of,
    planned, resolved_name, resource_places, worker_offers, ActionView, Declared, OfferView, Param,
    PlanState,
};
use crate::executor::batch::text_map;
use crate::executor::plan::{ExecutionStep, NodeInfo};

verus! {

/// A parameter is given an argument unless it has a default or collects what is left over;
/// the order is that of the function.
pub proof fn lemma_injectable(s: Seq<Declared>)
    ensures
        injectable(s) == s.filter(|d: Declared| !d.variadic && !d.has_default).map_values(
            |d: Declared| d.param,
        ),
    decreases s.len(),
{
    reveal(Seq::filter);
    let p = |d: Declared| !d.variadic && !d.has_default;
    let f = |d: Declared| d.param;
    if s.len() > 0 {
        let w = s.drop_last();
        lemma_injectable(w);
        if p(s.last()) {
            assert(s.filter(p).map_values(f) =~= w.filter(p).map_values(f).push(f(s.last())));
        }
    } else {
        assert(s.filter(p).map_values(f) =~= Seq::empty());
    }
}

/// What a parameter that takes no context is given. `self` is the step's own previous
/// output and needs an annotation. Any other goes by the name it is remapped to: the item
/// of a fan-out in a worker, then the input that was given, then the upstream, then the
/// resource of the parameter's own name. One that matches nothing is left out in a worker
/// and a fault elsewhere.
pub proof fn lemma_input(o: OfferView, p: Param, i: int)
    ensures
        ({
            let r = input_for(o, p, i);
            let remapped = o.remap.dom().contains(p.name@);
            let name = if remapped {
                o.remap[p.name@]
            } else {
                p.name@
            };
            let own = p.name@ == "self"@;
            let item = o.worker && o.source == Some(name);
            let given = o.overrides.contains(name);
            let node = o.nodes.contains(name);
            let resource = o.resources.contains(p.name@);
            &&& own && p.annotated ==> r == Ok::<Option<ActionView>, FaultView>(
                Some(ActionView::SelfDependency(i)),
            )
            &&& own && !p.annotated ==> r is Err && r->Err_0.0 == FaultKind::Execution
            &&& !own && item ==> r == Ok::<Option<ActionView>, FaultView>(Some(ActionView::FanOut))
            &&& !own && !item && given ==> r == Ok::<Option<ActionView>, FaultView>(
                Some(ActionView::Override(name)),
            )
            &&& !own && !item && !given && node ==> r == Ok::<Option<ActionView>, FaultView>(
                Some(ActionView::Upstream(name, i)),
            )
            &&& !own && !item && !given && !node && resource ==> r == Ok::<
                Option<ActionView>,
                FaultView,
            >(Some(ActionView::Resource(p.name@, !o.worker && o.config_overrides)))
            &&& !own && !item && !given && !node && !resource && o.worker ==> r == Ok::<
                Option<ActionView>,
                FaultView,
            >(None)
            &&& !own && !item && !given && !node && !resource && !o.worker ==> r is Err
                && r->Err_0.0 == FaultKind::Configuration && r->Err_0.1 == "Asset '"@ + o.step
                + "': parameter '"@ + p.name@
                + "' does not match any upstream asset or resource"@
        }),
{
}

/// A plan of no parameters does nothing; a further parameter is planned behind those
/// before it.
pub proof fn lemma_plan_goes_on(o: OfferView, params: Seq<Param>, p: Param)
    ensures
        plan_of(o, Seq::empty()) == (PlanState {
            actions: Seq::empty(),
            fault: None,
            first: true,
            config: false,
            injected: false,
        }),
        plan_of(o, params.push(p)) == planned(
            o,
            plan_of(o, params),
            p,
            params.len() as int,
        ),
{
    assert(params.push(p).drop_last() =~= params);
}

/// Behind a fault nothing is planned, and the return annotation is no parameter.
pub proof fn lemma_plan_stops(o: OfferView, s: PlanState, p: Param, i: int)
    ensures
        s.fault is Some || p.name@ == "return"@ ==> planned(o, s, p, i) == s,
{
}

/// The first parameter takes the context where its annotation says so, or where it is
/// called `context` and no node is. The configuration that it names is resolved before it.
/// In place a task gets a context of its own, under the name of the step.
pub proof fn lemma_plan_context(o: OfferView, s: PlanState, p: Param, i: int)
    requires
        s.fault is None,
        p.name@ != "return"@,
        s.first,
        p.is_ctx || (p.name@ == "context"@ && !o.nodes.contains("context"@)),
    ensures
        ({
            let r = planned(o, s, p, i);
            let context = if p.is_task_ctx && !o.worker {
                ActionView::Context(true, o.step)
            } else {
                ActionView::Context(false, o.context)
            };
            let config = p.is_ctx && p.has_config && !s.config;
            &&& r.fault is None
            &&& r.injected
            &&& !r.first
            &&& r.config == (s.config || config)
            &&& config ==> r.actions == s.actions.push(ActionView::Config(i)).push(context)
            &&& !config ==> r.actions == s.actions.push(context)
        }),
{
}

/// A context behind another parameter is a fault of the step.
pub proof fn lemma_plan_late_context(o: OfferView, s: PlanState, p: Param, i: int)
    requires
        s.fault is None,
        p.name@ != "return"@,
        !s.first,
        p.is_ctx,
    ensures
        planned(o, s, p, i).fault == Some(
            (FaultKind::Execution, "Context must be the first parameter of '"@ + o.step + "'"@),
        ),
        planned(o, s, p, i).injected == s.injected,
{
}

/// Any other parameter adds what it is given, and a fault where there is nothing for it;
/// nothing that was planned before changes.
pub proof fn lemma_plan_input(o: OfferView, s: PlanState, p: Param, i: int)
    requires
        s.fault is None,
        p.name@ != "return"@,
        !p.is_ctx,
        !(s.first && p.name@ == "context"@ && !o.nodes.contains("context"@)),
    ensures
        ({
            let r = planned(o, s, p, i);
            let given = input_for(o, p, i);
            &&& !r.first
            &&& r.config == s.config
            &&& r.injected == s.injected
            &&& given matches Ok(Some(a)) ==> r.actions == s.actions.push(a) && r.fault is None
            &&& given matches Ok(None) ==> r.actions == s.actions && r.fault is None
            &&& given matches Err(f) ==> r.actions == s.actions && r.fault == Some(f)
        }),
{
}

/// The context of a step with several outputs goes under the own name of its node, where
/// it has one; any other under the name of the step.
pub proof fn lemma_context_name(step: Seq<char>, outputs: nat, node: NodeInfo)
    ensures
        outputs > 0 && node.name is Some ==> context_name_of(step, outputs, node) == node.name->0@,
        outputs == 0 || node.name is None ==> context_name_of(step, outputs, node) == step,
{
}

/// What a step offers in place and in a worker: its nodes, the inputs that were given, the
/// resources and the remapped names. Only a worker knows of a fan-out, and only in place a
/// resource is configured anew.
pub proof fn lemma_offers(
    step: ExecutionStep,
    outputs: nat,
    node: NodeInfo,
    nodes: Map<Seq<char>, NodeInfo>,
    overrides: Set<Seq<char>>,
    resources: Set<Seq<char>>,
    config_overrides: bool,
    source: Option<Seq<char>>,
)
    ensures
        ({
            let a = own_offers(step, node, nodes, overrides, resources, config_overrides);
            let b = worker_offers(
                step.name@,
                outputs,
                node,
                nodes,
                overrides,
                resources,
                source,
            );
            &&& !a.worker && a.source is None && a.config_overrides == config_overrides
            &&& b.worker && b.source == source && !b.config_overrides
            &&& a.step == step.name@ && b.step == step.name@
            &&& a.nodes == nodes.dom() && b.nodes == nodes.dom()
            &&& a.overrides == overrides && b.overrides == overrides
            &&& a.resources == resources && b.resources == resources
            &&& a.remap == text_map(node.param_remap@) && b.remap == text_map(node.param_remap@)
            &&& a.context == context_name_of(step.name@, step.outputs@.len(), node)
            &&& b.context == context_name_of(step.name@, outputs, node)
        }),
{
}

/// Whether an action gives an argument of a worker's call: the context and the
/// configuration do not.
pub open spec fn gives_argument(a: ActionView) -> bool {
    !(a is Config) && !(a is Context)
}

/// The place of an action among the arguments is the number of arguments before it.
pub proof fn lemma_argument_place(actions: Seq<ActionView>, n: int)
    requires
        0 <= n <= actions.len(),
    ensures
        args_before(actions, n) == actions.take(n).filter(|a: ActionView| gives_argument(a)).len(),
    decreases n,
{
    reveal(Seq::filter);
    let p = |a: ActionView| gives_argument(a);
    if n > 0 {
        lemma_argument_place(actions, n - 1);
        assert(actions.take(n).drop_last() =~= actions.take(n - 1));
        assert(actions.take(n).last() == actions[n - 1]);
    }
}

/// Each resource of a worker is listed with its name and the place of its argument, and
/// nothing else is listed.
pub proof fn lemma_resource_places(actions: Seq<ActionView>, n: int)
    requires
        0 <= n <= actions.len(),
    ensures
        forall|at: int, name: Seq<char>| #[trigger]
            resource_places(actions, n).contains((at, name)) <==> exists|k: int|
                0 <= k < n && (#[trigger] actions[k]) is Resource && actions[k]->Resource_0 == name
                    && at == args_before(actions, k),
        resource_places(actions, n).len() == actions.take(n).filter(
            |a: ActionView| a is Resource,
        ).len(),
    decreases n,
{
    reveal(Seq::filter);
    let p = |a: ActionView| a is Resource;
    let r = resource_places(actions, n);
    if n > 0 {
        lemma_resource_places(actions, n - 1);
        let w = resource_places(actions, n - 1);
        assert(actions.take(n).drop_last() =~= actions.take(n - 1));
        assert(actions.take(n).last() == actions[n - 1]);
        assert forall|at: int, name: Seq<char>| #[trigger] r.contains((at, name)) <==> exists|
            k: int,
        |
            0 <= k < n && (#[trigger] actions[k]) is Resource && actions[k]->Resource_0 == name
                && at == args_before(actions, k) by {
            if r.contains((at, name)) {
                let j = choose|j: int| 0 <= j < r.len() && r[j] == (at, name);
                if j < w.len() {
                    assert(w[j] == (at, name));
                    assert(w.contains((at, name)));
                } else {
                    assert(actions[n - 1] is Resource);
                }
            }
            if exists|k: int|
                0 <= k < n && (#[trigger] actions[k]) is Resource && actions[k]->Resource_0 == name
                    && at == args_before(actions, k) {
                let k = choose|k: int|
                    0 <= k < n && (#[trigger] actions[k]) is Resource && actions[k]->Resource_0
                        == name && at == args_before(actions, k);
                if k < n - 1 {
                    assert(w.contains((at, name)));
                    let j = choose|j: int| 0 <= j < w.len() && w[j] == (at, name);
                    assert(r[j] == (at, name));
                } else {
                    assert(r[r.len() - 1] == (at, name));
                }
            }
        }
    }
}

/// The item of a fan-out goes to the place of the last parameter that takes it.
pub proof fn lemma_fan_out_place(actions: Seq<ActionView>, n: int)
    requires
        0 <= n <= actions.len(),
    ensures
        match fan_out_place(actions, n) {
            Some(at) => exists|k: int|
                0 <= k < n && (#[trigger] actions[k]) is FanOut && at == args_before(actions, k)
                    && forall|j: int| k < j < n ==> !((#[trigger] actions[j]) is FanOut),
            None => forall|k: int| 0 <= k < n ==> !((#[trigger] actions[k]) is FanOut),
        },
    decreases n,
{
    if n > 0 {
        if actions[n - 1] is FanOut {
        } else {
            lemma_fan_out_place(actions, n - 1);
            match fan_out_place(actions, n - 1) {
                Some(at) => {
                    let k = choose|k: int|
                        0 <= k < n - 1 && (#[trigger] actions[k]) is FanOut && at == args_before(
                            actions,
                            k,
                        ) && forall|j: int| k < j < n - 1 ==> !((#[trigger] actions[j]) is FanOut);
                    assert(actions[k] is FanOut);
                },
                None => {},
            }
        }
    }
}

/// A name that is not remapped stands for itself.
pub proof fn lemma_resolved_name(o: OfferView, name: Seq<char>)
    ensures
        o.remap.dom().contains(name) ==> resolved_name(o, name) == o.remap[name],
        !o.remap.dom().contains(name) ==> resolved_name(o, name) == name,
{
}

} // verus!
