use rivers::code_location::resolve_partition_target;
use rivers::errors::FaultKind;
use rivers::executor::args::{
    build_step_args, context_name, enumerate_params, resolve_worker_args, ArgAction, Declared,
    Param,
};
use rivers::executor::batch::Batch;
use rivers::executor::events::{Classified, FailureReason, Origin};
use rivers::executor::in_process::{
    async_permits, captured_streams, given_inputs, split_async,
};
use rivers::executor::invoke::{
    execute_step, process_raw_result, unwrap_result, validate_return_type, CallPlan, Hint,
    UnionArg,
};
use rivers::executor::io::{
    build_mapped_partition_context, build_partition_context, extract_module_qualname, input_handler_ref, load_upstream_input,
    map_partition_key_for_upstream, pickle_transport, resolve_io_handler_ref, HandlerSource,
    HandlerTransport, Transport, UpstreamLoad,
};
use rivers::executor::kind::Executor;
use rivers::executor::obj::{Obj, NONE_ID};
use rivers::executor::orchestrate::StepInstance;
use rivers::executor::outputs::{
    dict_item, entry_refs, extract_data_version, item_for_kind, merge_metadata, single_item,
    yield_item, yield_target, Entry, Extracted, OutputItem, OutputRequest, OutputWalk, ResultKind,
    YieldTarget,
};
use rivers::executor::plan::{ExecutionPlan, ExecutionStep, NodeInfo, NodeMap, RetryRef, StepKind};
use rivers::executor::submit::{
    build_multi_output_specs, build_single_output_spec, reconstruct_io_handler, unwrap_callable,
    MappedResultsIter, PyFuncRef, PyIOHandlerRef, WorkerCollectStreamIter,
};
use rivers::executor::worker::{
    append_output, captured, worker_item_action, ItemAction, WorkerAction, WorkerArg, WorkerRun,
};
use rivers::job::{
    build_multi_asset_groups, job_node_names, JobItem, JobNode, PyJob,
};
use rivers::metadata::MetadataValue;
use rivers::moment::Moment;
use rivers::names::{NameMap, NameSet};
use rivers::partitions::definition::PartitionsDefinition;
use rivers::partitions::facts::{KeyFacts, Shifts};
use rivers::partitions::key::PyPartitionKey;
use rivers::partitions::key_set::OrderedKeySet;
use rivers::partitions::mapping::{PartitionMapping, UpstreamKeyResolution};
use rivers::partitions::readings::Readings;

fn owned(v: &[&str]) -> Vec<String> {
    v.iter().map(|s| s.to_string()).collect()
}

fn set(v: &[&str]) -> NameSet {
    let mut s = NameSet::new();
    for n in v {
        s.insert(n.to_string());
    }
    s
}

fn node() -> NodeInfo {
    NodeInfo {
        name: None,
        is_external: false,
        is_graph_asset: false,
        is_bash_task: false,
        is_async: false,
        has_annotations: true,
        has_success_hooks: false,
        has_failure_hooks: false,
        pools: vec![],
        actions: vec![],
        retry: None,
        compute: None,
        metadata: None,
        final_node: None,
        partitions_def: None,
        partition_mapping: NameMap::new(),
        param_remap: NameMap::new(),
    }
}

fn nodes(v: Vec<(&str, NodeInfo)>) -> NodeMap {
    let mut m = NameMap::new();
    for (n, i) in v {
        m.insert(n.to_string(), i);
    }
    m
}

fn step(name: &str) -> ExecutionStep {
    ExecutionStep {
        name: name.to_string(),
        outputs: vec![],
        kind: StepKind::Normal,
        plan_dependencies: vec![],
        graph_dependencies: vec![],
    }
}

fn many(name: &str, outputs: &[&str]) -> ExecutionStep {
    ExecutionStep { outputs: owned(outputs), ..step(name) }
}

fn fixed(v: &[&str]) -> PartitionsDefinition {
    PartitionsDefinition::Static { keys: OrderedKeySet::new(owned(v)) }
}

fn facts() -> KeyFacts {
    KeyFacts {
        now: Moment { secs: 0, nanos: 0 },
        readings: Readings::new(),
        shifts: Shifts::new(),
    }
}

fn entry(n: &str, v: &str) -> Entry {
    (n.to_string(), MetadataValue::Text { value: v.to_string() })
}

fn names(v: &[&Entry]) -> Vec<String> {
    v.iter()
        .map(|e| match &e.1 {
            MetadataValue::Text { value } => format!("{}={value}", e.0),
            _ => e.0.clone(),
        })
        .collect()
}

fn param(name: &str) -> Param {
    Param {
        name: name.to_string(),
        annotated: true,
        is_ctx: false,
        is_task_ctx: false,
        has_config: false,
    }
}

fn plan_text(actions: &[ArgAction]) -> Vec<String> {
    actions
        .iter()
        .map(|a| match a {
            ArgAction::Config(i) => format!("config {i}"),
            ArgAction::Context { task, name } => format!("context {task} {name}"),
            ArgAction::SelfDependency(i) => format!("self {i}"),
            ArgAction::Override(n) => format!("override {n}"),
            ArgAction::Upstream(n, i) => format!("upstream {n} {i}"),
            ArgAction::Resource(n, c) => format!("resource {n} {c}"),
            ArgAction::FanOut => "item".to_string(),
        })
        .collect()
}

#[test]
fn parameters_with_a_default_are_left_alone() {
    let declare = |n: &str, variadic, has_default| Declared {
        param: param(n),
        variadic,
        has_default,
    };
    let p = enumerate_params(vec![
        declare("a", false, false),
        declare("i", false, true),
        declare("rest", true, false),
        declare("b", false, false),
    ]);
    assert_eq!(p.len(), 2);
    assert_eq!(p[1].name, "b");
}

#[test]
fn arguments_of_a_step() {
    let mut remap = NameMap::new();
    remap.insert("short".to_string(), "long_name".to_string());
    let n = || NodeInfo { param_remap: NameMap { entries: vec![] }, ..node() };
    let all = nodes(vec![("up", n()), ("long_name", n()), ("a", n())]);
    let own = NodeInfo { param_remap: remap, ..node() };
    let ctx = Param { is_ctx: true, has_config: true, ..param("context") };
    let plan = build_step_args(
        &step("a"),
        &own,
        &all,
        &set(&["given"]),
        &set(&["db"]),
        true,
        &vec![ctx, param("self"), param("up"), param("short"), param("given"), param("db")],
    );
    assert_eq!(
        plan_text(&plan.actions),
        owned(&[
            "config 0",
            "context false a",
            "self 1",
            "upstream up 2",
            "upstream long_name 3",
            "override given",
            "resource db true",
        ])
    );
    assert!(plan.fault.is_none() && plan.context_injected);
}

#[test]
fn arguments_that_cannot_be_given() {
    let all = nodes(vec![("a", node())]);
    let none = NameSet::new();
    let fault = |params: Vec<Param>| {
        build_step_args(&step("a"), &node(), &all, &none, &none, false, &params).fault.unwrap()
    };
    let late = fault(vec![param("a"), Param { is_ctx: true, ..param("ctx") }]);
    assert_eq!(late.kind, FaultKind::Execution);
    assert_eq!(late.message, "Context must be the first parameter of 'a'");
    let bare = fault(vec![Param { annotated: false, ..param("self") }]);
    assert_eq!(
        bare.message,
        "Asset 'a': `self` parameter requires a `SelfDependency[T]` annotation"
    );
    let unknown = fault(vec![param("what")]);
    assert_eq!(unknown.kind, FaultKind::Configuration);
    assert_eq!(
        unknown.message,
        "Asset 'a': parameter 'what' does not match any upstream asset or resource"
    );
    let by_name =
        build_step_args(&step("a"), &node(), &all, &none, &none, false, &vec![param("context")]);
    assert_eq!(plan_text(&by_name.actions), owned(&["context false a"]));
}

#[test]
fn a_task_context_goes_under_the_name_of_the_step() {
    let own = NodeInfo { name: Some("group".to_string()), ..node() };
    let all = nodes(vec![]);
    let none = NameSet::new();
    let plan = |p: Param| {
        let s = many("a", &["x", "y"]);
        plan_text(&build_step_args(&s, &own, &all, &none, &none, false, &vec![p]).actions)
    };
    let ctx = Param { is_ctx: true, ..param("ctx") };
    assert_eq!(plan(ctx), owned(&["context false group"]));
    let task = Param { is_ctx: true, is_task_ctx: true, ..param("ctx") };
    assert_eq!(plan(task), owned(&["context true a"]));
}

#[test]
fn arguments_of_a_worker() {
    let all = nodes(vec![("up", node()), ("src", node()), ("m", node())]);
    let w = resolve_worker_args(
        "m",
        &vec![],
        &node(),
        &all,
        &NameSet::new(),
        &set(&["db"]),
        Some("src"),
        &vec![param("context"), param("up"), param("src"), param("db"), param("odd")],
    );
    assert_eq!(
        plan_text(&w.plan.actions),
        owned(&["context false m", "upstream up 1", "item", "resource db false"])
    );
    assert!(w.plan.fault.is_none());
    assert_eq!(w.fan_out_arg_index, Some(1));
    assert_eq!(w.resource_positions, vec![(2, "db".to_string())]);
}

#[test]
fn the_name_of_a_context() {
    let n = NodeInfo { name: Some("multi".to_string()), ..node() };
    assert_eq!(context_name("a", &vec![], &n), "a");
    assert_eq!(context_name("a", &owned(&["o"]), &n), "multi");
    assert_eq!(context_name("a", &owned(&["o"]), &node()), "a");
}

#[test]
fn return_types() {
    let check = |h: &Hint, none: bool| validate_return_type(h, none, "a", "int", "str");
    assert!(check(&Hint::Open, false).is_ok());
    assert!(check(&Hint::Plain { is_none_type: false, instance: true }, false).is_ok());
    assert!(check(&Hint::Plain { is_none_type: true, instance: false }, true).is_ok());
    assert!(check(&Hint::Generic(false), false).is_err());
    let u = |is_none_type, instance| UnionArg { is_none_type, instance };
    assert!(check(&Hint::Union(vec![u(false, false), u(true, false)]), true).is_ok());
    assert!(check(&Hint::Union(vec![u(false, false), u(false, true)]), false).is_ok());
    let e = check(&Hint::Union(vec![u(true, false)]), false).err().unwrap();
    assert_eq!(e.kind, FaultKind::OutputValidation);
    assert_eq!(e.message, "Asset 'a' returned value of type 'int' but expected 'str'");
}

#[test]
fn how_a_step_is_called() {
    let bash = NodeInfo { has_annotations: false, is_bash_task: true, ..node() };
    let none = NodeInfo { has_annotations: false, ..node() };
    let quick = NodeInfo { is_async: true, ..node() };
    let all = nodes(vec![("a", node()), ("b", bash), ("c", none), ("q", quick)]);
    let call = |s: &ExecutionStep, g, l| execute_step(&all, s, g, l);
    assert_eq!(call(&step("a"), None, false).ok().unwrap(), CallPlan::Call);
    assert_eq!(call(&step("a"), Some(true), false).ok().unwrap(), CallPlan::Call);
    assert_eq!(
        call(&many("a", &["o"]), Some(true), false).ok().unwrap(),
        CallPlan::Generator(true)
    );
    assert_eq!(call(&step("b"), None, false).ok().unwrap(), CallPlan::Shell);
    assert_eq!(call(&step("q"), None, true).ok().unwrap(), CallPlan::Await);
    assert_eq!(
        call(&step("q"), None, false).err().unwrap().message,
        "Async node 'q' requires TaskLocals \u{2014} this is an internal error"
    );
    assert_eq!(
        call(&step("c"), None, false).err().unwrap().message,
        "Node 'c' has no annotations and is not a BashTask \u{2014} cannot execute"
    );
    assert_eq!(
        call(&step("z"), None, false).err().unwrap().message,
        "Node 'z' not found in execution plan"
    );
}

fn wrapped(value: Option<Obj>, kind: ResultKind, metadata: Vec<Entry>) -> Extracted {
    Extracted { value, metadata, data_version: Some("own".to_string()), kind, output_name: None }
}

#[test]
fn a_result_is_unwrapped_and_merged() {
    let ctx = vec![entry("a", "ctx"), entry("b", "ctx")];
    let e = wrapped(Some(Obj(4)), ResultKind::Output, vec![entry("a", "own")]);
    let r = process_raw_result(Obj(3), Some(&e), &ctx, Some("ctx".to_string()), None);
    assert_eq!(r.result, Obj(4));
    assert_eq!(names(&r.output_metadata), owned(&["b=ctx", "a=own"]));
    assert_eq!(r.data_version, Some("own".to_string()));
    let r = process_raw_result(Obj(3), None, &ctx, Some("ctx".to_string()), None);
    assert_eq!(r.result, Obj(3));
    assert_eq!(r.data_version, Some("ctx".to_string()));
    let d = Some((Obj(8), owned(&["k"])));
    let r = process_raw_result(Obj(3), None, &ctx, None, d);
    assert_eq!(r.result, Obj(8));
    assert_eq!(r.dynamic_keys, Some(owned(&["k"])));
    let m = wrapped(None, ResultKind::Materialization, vec![]);
    assert_eq!(unwrap_result(Obj(3), Some(&m)), Obj(NONE_ID));
}

#[test]
fn an_overlay_takes_the_place_of_its_names() {
    let a = [entry("x", "1"), entry("y", "1")];
    let b = [entry("x", "2"), entry("z", "2"), entry("x", "3")];
    let got = merge_metadata(a.iter().collect(), &b.iter().collect());
    assert_eq!(names(&got), owned(&["y=1", "z=2", "x=3"]));
}

#[test]
fn a_version_among_the_metadata_is_taken_out() {
    let v = |s: &str| ("v".to_string(), MetadataValue::DataVersion { value: s.to_string() });
    let all = vec![entry("a", "1"), v("one"), entry("b", "2"), v("two")];
    let (version, rest) = extract_data_version(&entry_refs(&all));
    assert_eq!(version, Some("two".to_string()));
    assert_eq!(names(&rest), owned(&["a=1", "b=2"]));
}

#[test]
fn items_of_each_kind() {
    let item = item_for_kind(ResultKind::Output, "a".to_string(), None, vec![], None);
    assert!(matches!(item, OutputItem::Materialization { value: Some(Obj(NONE_ID)), .. }));
    let item =
        item_for_kind(ResultKind::Materialization, "a".to_string(), Some(Obj(1)), vec![], None);
    assert!(matches!(item, OutputItem::Materialization { value: None, .. }));
    let item = item_for_kind(ResultKind::Observation, "a".to_string(), None, vec![], None);
    assert!(matches!(item, OutputItem::Observation { .. }));
    for k in [ResultKind::Output, ResultKind::Observation, ResultKind::Materialization] {
        assert_eq!(ResultKind::from_u8(k.as_u8()), Some(k));
    }
    assert_eq!(ResultKind::from_u8(9), None);
}

#[test]
fn entries_of_a_dict() {
    let shared = vec![entry("s", "1")];
    let e = wrapped(Some(Obj(4)), ResultKind::Output, vec![entry("o", "2")]);
    let item = dict_item("o", Obj(9), Some(&e), &shared, &Some("shared".to_string()));
    let OutputItem::Materialization { name, value, metadata, data_version } = item else {
        panic!("it has a value");
    };
    assert_eq!(name, "o");
    assert_eq!(value, Some(Obj(4)));
    assert_eq!(names(&metadata), owned(&["s=1", "o=2"]));
    assert_eq!(data_version, Some("own".to_string()));
    let plain = dict_item("o", Obj(9), None, &shared, &Some("shared".to_string()));
    assert!(matches!(
        plain,
        OutputItem::Materialization { value: Some(Obj(9)), data_version: Some(v), .. }
            if v == "shared"
    ));
}

#[test]
fn yields_of_a_generator() {
    let selected = owned(&["o"]);
    assert_eq!(
        yield_target(None, &selected).err().unwrap().message,
        "Generator multi-asset must yield Output(...), Observation(...), or Materialization(...)"
    );
    let e = wrapped(None, ResultKind::Observation, vec![]);
    assert_eq!(
        yield_target(Some(&e), &selected).err().unwrap().message,
        "yield in multi-asset must include output_name"
    );
    let named = |n: &str| Extracted { output_name: Some(n.to_string()), ..wrapped(None, ResultKind::Observation, vec![]) };
    assert!(matches!(yield_target(Some(&named("z")), &selected), Ok(YieldTarget::Skip)));
    assert!(matches!(
        yield_target(Some(&named("o")), &selected),
        Ok(YieldTarget::Take(n)) if n == "o"
    ));
    let ctx = vec![entry("c", "1")];
    let o = named("o");
    let item = yield_item("o".to_string(), &o, &ctx, None);
    assert!(matches!(
        item,
        OutputItem::Observation { data_version: Some(v), .. } if v == "own"
    ));
}

#[test]
fn a_single_output_keeps_the_version_of_the_step() {
    let m = vec![(
        "v".to_string(),
        MetadataValue::DataVersion { value: "legacy".to_string() },
    )];
    let item = single_item("a", ResultKind::Output, Obj(2), &m, &None);
    assert!(matches!(
        item,
        OutputItem::Materialization { data_version: Some(v), metadata, .. }
            if v == "legacy" && metadata.is_empty()
    ));
    let item = single_item("a", ResultKind::Output, Obj(2), &m, &Some("set".to_string()));
    assert!(matches!(
        item,
        OutputItem::Materialization { data_version: Some(v), .. } if v == "set"
    ));
}

#[test]
fn outputs_are_walked_by_shape() {
    let mut w = OutputWalk::new(false, &vec![]);
    assert_eq!(w.request(), OutputRequest::Whole);
    w.handed();
    assert_eq!(w.request(), OutputRequest::Done);
    let mut w = OutputWalk::new(false, &owned(&["o", "p"]));
    assert_eq!(w.request(), OutputRequest::Slice(0));
    w.handed();
    assert_eq!(w.request(), OutputRequest::Slice(1));
    w.handed();
    assert_eq!(w.request(), OutputRequest::Done);
    let mut w = OutputWalk::new(true, &owned(&["o", "p"]));
    assert_eq!(w.request(), OutputRequest::Next);
    w.exhausted();
    assert_eq!(w.request(), OutputRequest::Done);
}

#[test]
fn contexts_of_partitions() {
    let f = facts();
    let n = NodeInfo { partitions_def: Some(fixed(&["x"])), ..node() };
    let key = Some(PyPartitionKey::of("x".to_string()));
    assert!(build_partition_context("a", &n, &None, &f).ok().unwrap().is_none());
    let c = build_partition_context("a", &n, &key, &f).ok().unwrap().unwrap();
    assert_eq!(c.keys.len(), 1);
    let e = build_partition_context("a", &node(), &key, &f).err().unwrap();
    assert_eq!(e.kind, FaultKind::Validation);
    assert_eq!(e.message, "Node 'a' is not partitioned, but a partition_key was provided");
    let other = Some(PyPartitionKey::of("y".to_string()));
    assert_eq!(
        build_partition_context("a", &n, &other, &f).err().unwrap().message,
        "Partition key Single { key: [\"y\"] } is not valid for node 'a'"
    );
}

#[test]
fn upstream_inputs() {
    let f = facts();
    let part = || NodeInfo { partitions_def: Some(fixed(&["x"])), ..node() };
    let key = Some(PyPartitionKey::of("x".to_string()));
    let other = Some(PyPartitionKey::of("y".to_string()));
    let r = load_upstream_input("up", "up", &part(), &part(), &key, &f);
    assert!(matches!(r, Ok(UpstreamLoad::Load(Some(_)))));
    let wide = NodeInfo { partitions_def: Some(fixed(&["x", "y"])), ..node() };
    assert!(load_upstream_input("up", "up", &wide, &part(), &other, &f).is_err());
    let mut mapping = NameMap::new();
    mapping.insert("up".to_string(), PartitionMapping::subset());
    let sub = NodeInfo { partition_mapping: mapping, ..wide };
    let r = load_upstream_input("up", "up", &sub, &part(), &other, &f);
    assert!(matches!(r, Ok(UpstreamLoad::Skip)));
    let r = map_partition_key_for_upstream("up", &sub, &part(), &key, &f);
    assert!(matches!(r, Ok(UpstreamKeyResolution::Load(Some(_)))));
}

#[test]
fn how_things_reach_a_worker() {
    assert_eq!(pickle_transport(false, false), Transport::AsIs);
    assert_eq!(pickle_transport(true, true), Transport::Raw);
    assert_eq!(pickle_transport(true, false), Transport::Repr);
    assert_eq!(
        resolve_io_handler_ref(HandlerSource::Definition, true, false),
        HandlerTransport::OwnPath
    );
    assert_eq!(
        resolve_io_handler_ref(HandlerSource::GraphOverride, true, true),
        HandlerTransport::GraphPath
    );
    assert_eq!(
        resolve_io_handler_ref(HandlerSource::Default, true, true),
        HandlerTransport::Raw
    );
    assert_eq!(input_handler_ref(HandlerSource::InputOverride, true), HandlerTransport::Raw);
    assert_eq!(
        input_handler_ref(HandlerSource::GraphOverride, true),
        HandlerTransport::OwnPath
    );
    let path = extract_module_qualname("m".to_string(), "f".to_string()).ok().unwrap();
    assert_eq!(path, ("m".to_string(), "f".to_string()));
    let e =
        extract_module_qualname("m".to_string(), "f.<locals>.g".to_string()).err().unwrap();
    assert_eq!(e.kind, FaultKind::Value);
    assert_eq!(e.message, "qualname contains <locals>");
}

#[test]
fn a_worker_tears_down_what_it_set_up() {
    let mut w = WorkerRun::new(
        vec![WorkerArg::Plain, WorkerArg::Collect(2), WorkerArg::Stream, WorkerArg::Load],
        2,
        true,
        true,
    );
    let mut seen = vec![];
    loop {
        seen.push(w.action);
        if matches!(w.action, WorkerAction::Report | WorkerAction::Raise) {
            break;
        }
        w.advance(w.action != WorkerAction::Body);
    }
    assert_eq!(
        seen,
        vec![
            WorkerAction::LoadArg(1, 0),
            WorkerAction::LoadArg(1, 1),
            WorkerAction::LoadArg(3, 0),
            WorkerAction::SetUp(0),
            WorkerAction::SetUp(1),
            WorkerAction::MakeContext,
            WorkerAction::Body,
            WorkerAction::TearDown(0),
            WorkerAction::TearDown(1),
            WorkerAction::FinishCapture,
            WorkerAction::Report,
        ]
    );
    assert_eq!(w.body, Some(false));
    let mut w = WorkerRun::new(vec![WorkerArg::Load], 1, false, false);
    w.advance(false);
    assert_eq!(w.action, WorkerAction::Raise);
    assert!(captured(String::new(), String::new(), String::new()).is_none());
    assert!(captured("o".to_string(), String::new(), String::new()).is_some());
}

#[test]
fn what_a_worker_does_with_an_output() {
    let m = vec![];
    let out = single_item("a", ResultKind::Output, Obj(2), &m, &Some("d".to_string()));
    assert_eq!(worker_item_action(&out, false, true), ItemAction::Write);
    assert_eq!(worker_item_action(&out, true, false), ItemAction::Skip);
    assert_eq!(worker_item_action(&out, false, false), ItemAction::Report);
    let told = append_output(&out, Some("io".to_string()));
    assert_eq!(told.data_version, Some("io".to_string()));
    assert_eq!(told.kind, ResultKind::Output);
    let seen = single_item("a", ResultKind::Observation, Obj(2), &m, &Some("d".to_string()));
    assert_eq!(worker_item_action(&seen, true, true), ItemAction::Report);
    let told = append_output(&seen, Some("io".to_string()));
    assert_eq!(told.data_version, Some("d".to_string()));
    assert_eq!(told.kind, ResultKind::Observation);
}

fn instance(name: &str, is_async: bool) -> StepInstance {
    StepInstance {
        idx: 0,
        instance_name: name.to_string(),
        mapping_key: None,
        event_names: owned(&[name]),
        fan_out: None,
        is_async,
        pools: vec![],
        scope: None,
    }
}

#[test]
fn steps_in_this_process() {
    let (plain, quick) =
        split_async(vec![instance("a", false), instance("b", true), instance("c", false)]);
    assert_eq!(plain.len(), 2);
    assert_eq!(plain[1].instance_name, "c");
    assert_eq!(quick[0].instance_name, "b");
    let inputs = given_inputs(NameMap::new(), Some(("src".to_string(), Obj(3))));
    assert_eq!(*inputs.get("src").unwrap(), Obj(3));
    assert_eq!(async_permits(Some(0)), Some(1));
    assert_eq!(async_permits(Some(5)), Some(5));
    assert_eq!(async_permits(None), None);
    let logs = captured_streams(Some(("o".to_string(), "e".to_string())), "l".to_string());
    assert_eq!(logs.unwrap().logs, "l");
    assert!(captured_streams(None, "l".to_string()).is_none());
    let class = Classified { reason: FailureReason::Error, exc_types: vec![] };
    let mut b = Batch::new(Origin::new("here".to_string(), "run".to_string()), None, false, class);
    b.collect_failed("a", "c", "gone", 1);
    assert_eq!(
        b.failures[0].1.text(),
        "ExecutionError: Failed to resolve collect input 'c': gone"
    );
}

fn job_node(deps: &[&str]) -> JobNode {
    JobNode {
        is_external: false,
        has_io_handler: true,
        graph_task_names: vec![],
        dependencies: owned(deps),
    }
}

fn repo(v: Vec<(&str, JobNode)>) -> NameMap<JobNode> {
    let mut m = NameMap::new();
    for (n, i) in v {
        m.insert(n.to_string(), i);
    }
    m
}

#[test]
fn nodes_of_a_job() {
    let items = vec![
        JobItem::MultiAsset(vec![Some("o".to_string()), Some("p".to_string())]),
        JobItem::Asset(Some("a".to_string())),
        JobItem::Task(Some("t".to_string())),
        JobItem::BashTask("b".to_string()),
    ];
    assert_eq!(job_node_names(&items).ok().unwrap(), owned(&["o", "p", "a", "t", "b"]));
    let said = |i: JobItem| {
        let e = job_node_names(&vec![i]).err().unwrap();
        assert_eq!(e.kind, FaultKind::GraphValidation);
        e.message
    };
    assert_eq!(said(JobItem::MultiAsset(vec![None])), "Multi-asset output has no name");
    assert_eq!(said(JobItem::Asset(None)), "Asset has no name");
    assert_eq!(said(JobItem::Task(None)), "Task has no name");
    assert_eq!(
        said(JobItem::Other),
        "Job assets must be Asset, Task, or BashTask instances"
    );
}

fn job(names: &[&str], allow: bool) -> PyJob {
    let items = names.iter().map(|n| JobItem::Asset(Some(n.to_string()))).collect();
    PyJob::new("nightly".to_string(), &items, None, allow, None).ok().unwrap()
}

#[test]
fn a_job_takes_its_inner_tasks_and_collects_along() {
    let g = JobNode { graph_task_names: owned(&["g/a", "g/b"]), ..job_node(&[]) };
    let all = repo(vec![("g", g), ("g/a", job_node(&[])), ("g/b", job_node(&[]))]);
    let mut kinds = NameMap::new();
    kinds.insert("c".to_string(), StepKind::Collect { mapped_step: "g/b".to_string() });
    kinds.insert("d".to_string(), StepKind::Collect { mapped_step: "zzz".to_string() });
    let mut j = job(&["g"], false);
    j.complete(&all, &kinds);
    assert_eq!(j.node_names, owned(&["g", "g/a", "g/b", "c"]));
    assert!(j.validate_and_build_plan(&all, &kinds, &vec![]).is_ok());
    assert_eq!(j.plan.unwrap().subset, owned(&["g", "g/a", "g/b"]));
}

#[test]
fn a_job_must_be_whole() {
    let kinds = NameMap::new();
    let mut j = job(&["a"], false);
    let e = j.validate_and_build_plan(&repo(vec![]), &kinds, &vec![]).err().unwrap();
    assert_eq!(e.kind, FaultKind::NodeNotFound);
    assert_eq!(e.message, "Job 'nightly': node 'a' not found in repository");
    let missing = vec![("a".to_string(), "up".to_string())];
    let all = repo(vec![("a", job_node(&["up"])), ("up", job_node(&[]))]);
    let e = j.validate_and_build_plan(&all, &kinds, &missing).err().unwrap();
    assert_eq!(e.kind, FaultKind::GraphValidation);
    assert_eq!(
        e.message,
        "Job 'nightly': node 'a' depends on 'up' which is not in the job. Add it to the job or \
         set allow_incomplete_deps=True"
    );
    assert!(j.plan.is_none());
    let mut open = job(&["a"], true);
    assert!(open.validate_and_build_plan(&all, &kinds, &missing).is_ok());
    assert_eq!(open.plan.unwrap().subset, owned(&["a", "up"]));
    let bare = repo(vec![
        ("a", job_node(&["up"])),
        ("up", JobNode { has_io_handler: false, ..job_node(&[]) }),
    ]);
    let mut open = job(&["a"], true);
    assert_eq!(
        open.validate_and_build_plan(&bare, &kinds, &missing).err().unwrap().message,
        "Job 'nightly': node 'a' depends on 'up' which is not in the job and has no io_handler"
    );
    let outside = repo(vec![
        ("a", job_node(&["up"])),
        ("up", JobNode { is_external: true, has_io_handler: false, ..job_node(&[]) }),
    ]);
    let mut j = job(&["a"], false);
    assert!(j.validate_and_build_plan(&outside, &kinds, &missing).is_ok());
    let lost = repo(vec![("a", job_node(&["up"]))]);
    let mut j = job(&["a"], false);
    assert_eq!(
        j.validate_and_build_plan(&lost, &kinds, &missing).err().unwrap().message,
        "Job 'nightly': dependency 'up' not found in repository"
    );
}

#[test]
fn a_job_is_ready_step_by_step() {
    let all = repo(vec![("a", job_node(&[]))]);
    let mut j = job(&["a"], false);
    assert_eq!(j.ready().err().unwrap().message, "Job has not been validated.");
    assert!(j.validate_and_build_plan(&all, &NameMap::new(), &vec![]).is_ok());
    assert_eq!(j.ready().err().unwrap().message, "Job has no executor.");
    j.maybe_set_executor(Executor::in_process());
    j.maybe_set_executor(Executor::parallel(Some(1), None, 1));
    assert!(matches!(j.executor, Some(Executor::InProcess)));
    assert_eq!(j.ready().err().unwrap().message, "Job has no storage configured.");
    j.set_storage();
    assert!(j.ready().is_ok());
    assert_eq!(j.record_name(), Some("nightly".to_string()));
    let s = PyJob::new_synthetic(owned(&["a"]), Executor::in_process(), false, None);
    assert_eq!(s.name(), "<materialize>");
    assert_eq!(s.record_name(), None);
}

#[test]
fn policies_of_a_job() {
    let mut policies = NameMap::new();
    policies.insert("slow".to_string(), 4u64);
    let mut j = PyJob::new_synthetic(
        vec![],
        Executor::in_process(),
        false,
        Some(RetryRef::Named("slow".to_string())),
    );
    assert!(j.resolve_retry_ref(&policies).is_ok());
    assert!(matches!(j.retry, Some(RetryRef::Inline(4))));
    let filled = j.fill_retry_defaults(
        vec![("a".to_string(), Some(1)), ("b".to_string(), None)],
        Some(9),
    );
    assert_eq!(filled, vec![("a".to_string(), Some(1)), ("b".to_string(), Some(4))]);
    let plain = PyJob::new_synthetic(vec![], Executor::in_process(), false, None);
    assert_eq!(
        plain.fill_retry_defaults(vec![("b".to_string(), None)], Some(9)),
        vec![("b".to_string(), Some(9))]
    );
    let mut odd = PyJob::new_synthetic(
        vec![],
        Executor::in_process(),
        false,
        Some(RetryRef::Named("fast".to_string())),
    );
    let e = odd.resolve_retry_ref(&policies).err().unwrap();
    assert_eq!(e.kind, FaultKind::Configuration);
    assert_eq!(
        e.message,
        "unknown retry policy 'fast' referenced by job '<materialize>'; registered: [\"slow\"]"
    );
}

#[test]
fn outputs_belong_to_their_multi_asset() {
    let groups = build_multi_asset_groups(&vec![
        ("o".to_string(), true, Some("m".to_string())),
        ("a".to_string(), false, Some("a".to_string())),
        ("p".to_string(), true, None),
    ]);
    assert_eq!(groups, vec![("o".to_string(), "m".to_string())]);
}

#[test]
fn references_by_import_path() {
    let f = PyFuncRef::new("pkg.mod".to_string(), "Outer.inner".to_string());
    assert_eq!(f.repr(), "FuncRef(pkg.mod:Outer.inner)");
    assert_eq!(f.attributes(), owned(&["Outer", "inner"]));
    assert_eq!(f.reduce(), ("pkg.mod".to_string(), "Outer.inner".to_string()));
    let h = PyIOHandlerRef::new("m".to_string(), "q".to_string());
    assert_eq!(h.reduce(), ("m".to_string(), "q".to_string()));
    assert_eq!(unwrap_callable(Obj(1), Some(Obj(2)), Some(Obj(3))), Obj(2));
    assert_eq!(unwrap_callable(Obj(1), None, Some(Obj(3))), Obj(3));
    assert_eq!(unwrap_callable(Obj(1), None, None), Obj(1));
    assert_eq!(reconstruct_io_handler(Some(Obj(4)), Some(Obj(5))), Obj(4));
    assert_eq!(reconstruct_io_handler(Some(Obj(NONE_ID)), Some(Obj(5))), Obj(5));
    assert_eq!(reconstruct_io_handler(None, None), Obj(NONE_ID));
}

#[test]
fn streams_come_one_by_one() {
    let mut i = MappedResultsIter::new("m".to_string(), owned(&["0", "k"]));
    assert_eq!(i.next(), Some("m__0".to_string()));
    assert_eq!(i.next(), Some("m__k".to_string()));
    assert_eq!(i.next(), None);
    assert_eq!(i.next(), None);
    let mut w = WorkerCollectStreamIter::new(vec![Obj(7)]);
    assert_eq!(w.next(), Some(Obj(7)));
    assert_eq!(w.next(), None);
}

#[test]
fn collected_inputs_for_a_worker_come_in_the_order_of_the_plan() {
    let collect = |name: &str, stream: bool| ExecutionStep {
        kind: if stream {
            StepKind::CollectStream { mapped_step: "m".to_string(), ordered: true }
        } else {
            StepKind::Collect { mapped_step: "m".to_string() }
        },
        ..step(name)
    };
    let user = ExecutionStep { plan_dependencies: owned(&["d", "c", "a"]), ..step("u") };
    let p = ExecutionPlan {
        steps: vec![step("a"), collect("c", false), collect("d", true), user],
        verb: None,
    };
    let class = Classified { reason: FailureReason::Error, exc_types: vec![] };
    let mut b = Batch::new(Origin::new("here".to_string(), "run".to_string()), None, false, class);
    b.record_mapped_keys("m".to_string(), owned(&["0"]));
    let c = b.build_collect_input_overrides(&p, &p.steps[3]);
    assert_eq!(c.len(), 2);
    assert_eq!(c[0].name, "c");
    assert_eq!(c[1].name, "d");
    assert!(c[1].stream);
    assert_eq!(c[1].instances, owned(&["m__0"]));
    b.collect_spec_failed("u", "c", "gone", 1);
    assert_eq!(
        b.failures[0].1.text(),
        "ExecutionError: Failed to build collect spec for 'c': gone"
    );
}

#[test]
fn contexts_of_outputs() {
    let f = facts();
    let part = || NodeInfo {
        name: Some("multi".to_string()),
        partitions_def: Some(fixed(&["x"])),
        ..node()
    };
    let key = Some(PyPartitionKey::of("x".to_string()));
    let none = build_single_output_spec("a__0", "a", &part(), false, &key, &f);
    assert!(matches!(none, Ok(None)));
    let s = build_single_output_spec("a__0", "a", &part(), true, &key, &f).ok().unwrap().unwrap();
    assert_eq!(s.name, "a__0");
    assert!(s.partition.is_some());
    let all = nodes(vec![("o", part()), ("p", part())]);
    let v = build_multi_output_specs(&owned(&["o", "p"]), &all, &key, &f).ok().unwrap();
    assert_eq!(v[1].name, "p");
    let e = build_multi_output_specs(&owned(&["o", "q"]), &all, &key, &f).err().unwrap();
    assert_eq!(e.kind, FaultKind::Key);
    assert_eq!(e.message, "Multi-asset output 'q' not in node_map");
    let bad = Some(PyPartitionKey::of("y".to_string()));
    assert_eq!(
        build_multi_output_specs(&owned(&["o"]), &all, &bad, &f).err().unwrap().message,
        "Partition key Single { key: [\"y\"] } is not valid for node 'multi'"
    );
}

#[test]
fn a_mapped_key_is_taken_as_it_is() {
    let f = facts();
    let n = NodeInfo { partitions_def: Some(fixed(&["x"])), ..node() };
    let other = Some(PyPartitionKey::of("y".to_string()));
    assert!(build_mapped_partition_context("a", &n, &other, &f).ok().unwrap().is_some());
    assert_eq!(
        build_mapped_partition_context("a", &node(), &other, &f).err().unwrap().message,
        "Node 'a' is not partitioned, but a partition_key was provided"
    );
}

#[test]
fn targets_of_requests_for_keys() {
    let d = PartitionsDefinition::Multi {
        dimensions: vec![("d".to_string(), fixed(&["1"]))],
    };
    let all = nodes(vec![
        ("p", NodeInfo { partitions_def: Some(d), ..node() }),
        ("u", node()),
    ]);
    assert_eq!(resolve_partition_target(&all, "p", "").ok().unwrap().variant_name(), "Multi");
    assert_eq!(resolve_partition_target(&all, "p", "d").ok().unwrap().variant_name(), "Static");
    assert_eq!(
        resolve_partition_target(&all, "p", "q").err().unwrap(),
        "asset 'p' has no partition dimension 'q'"
    );
    assert_eq!(
        resolve_partition_target(&all, "u", "").err().unwrap(),
        "asset 'u' is not partitioned"
    );
    assert_eq!(
        resolve_partition_target(&all, "z", "").err().unwrap(),
        "asset 'z' not found"
    );
}
