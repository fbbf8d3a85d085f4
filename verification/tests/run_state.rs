use rivers::errors::Fault;
use rivers::executor::batch::{Batch, Effect, Mark, StepError};
use rivers::executor::classify::{
    compute_for, implicit_asset_pool, retry_policy, retry_policy_for, StepAction,
};
use rivers::executor::events::{
    CapturedLogs, Classified, EventRecord, EventType, FailureReason, Origin,
};
use rivers::executor::failure::{
    backoff_slice, classify_pyerr, prior_step_retries, Backoff, ExceptionFacts,
};
use rivers::executor::obj::Obj;
use rivers::executor::outputs::ResultKind;
use rivers::executor::plan::{ActionInfo, ExecutionStep, NodeInfo, NodeMap, RetryRef, StepKind};
use rivers::executor::results::{
    collect_input_data_versions, fresh_version, ResultInfo, ResultStart, WorkOutcome, WorkerItem,
    WorkerReply,
};
use rivers::names::{NameMap, NameSet};
use rivers::partitions::key::PyPartitionKey;

fn owned(v: &[&str]) -> Vec<String> {
    v.iter().map(|s| s.to_string()).collect()
}

fn plain() -> Classified {
    Classified { reason: FailureReason::Error, exc_types: owned(&["builtins.Exception"]) }
}

fn batch(key: Option<PyPartitionKey>) -> Batch {
    Batch::new(Origin::new("here".to_string(), "run".to_string()), key, false, plain())
}

fn node() -> NodeInfo {
    NodeInfo {
        name: None,
        is_external: false,
        is_graph_asset: false,
        is_bash_task: false,
        is_async: false,
        has_annotations: false,
        has_success_hooks: false,
        has_failure_hooks: false,
        pools: vec![],
        actions: vec![],
        retry: None,
        compute: None,
        metadata: None,
        final_node: None,
        partitions_def: None,
        partition_mapping: NameMap::new(),
        param_remap: NameMap::new(),
    }
}

fn nodes(v: Vec<(&str, NodeInfo)>) -> NodeMap {
    let mut m = NameMap::new();
    for (n, i) in v {
        m.insert(n.to_string(), i);
    }
    m
}

fn step(name: &str) -> ExecutionStep {
    ExecutionStep {
        name: name.to_string(),
        outputs: vec![],
        kind: StepKind::Normal,
        plan_dependencies: vec![],
        graph_dependencies: vec![],
    }
}

fn many(name: &str, outputs: &[&str]) -> ExecutionStep {
    ExecutionStep { outputs: owned(outputs), ..step(name) }
}

fn key_text(k: &Option<PyPartitionKey>) -> String {
    match k {
        None => String::new(),
        Some(PyPartitionKey::Batch { .. }) => "[batch]".to_string(),
        Some(k) => format!("[{}]", k.display()),
    }
}

fn record(e: &EventRecord) -> String {
    let what = match &e.event_type {
        EventType::StepStart => "start".to_string(),
        EventType::StepSuccess => "success".to_string(),
        EventType::StepFailure { error, classified } => {
            let class = if classified.is_some() { "classed " } else { "" };
            format!("{class}failure '{error}'")
        }
        EventType::StepRetry { attempt, delay_ms, .. } => format!("retry {attempt} {delay_ms}"),
        EventType::LogOutput => "log".to_string(),
        EventType::Materialization { data_version } => format!("made {data_version:?}"),
        EventType::Observation { data_version } => format!("seen {data_version:?}"),
        EventType::Deletion { action } => format!("deleted {action}"),
        EventType::ActionCompleted { action } => format!("acted {action}"),
        other => format!("{other:?}"),
    };
    format!("{}{} {}", e.asset_key, key_text(&e.partition_key), what)
}

fn effect(e: &Effect) -> String {
    match e {
        Effect::Event(e) => record(e),
        Effect::SuccessHooks { node, name, output, .. } => {
            format!("{name} success hooks of {node} with {}", output.0)
        }
        Effect::FailureHooks { node, name, error, .. } => {
            format!("{name} failure hooks of {node} with '{error}'")
        }
        Effect::PersistKeys { name, data_version, keys } => {
            format!("{name} keys {} under {data_version}", keys.join(","))
        }
    }
}

fn effects(b: &Batch) -> Vec<String> {
    b.effects.iter().map(effect).collect()
}

fn failures(b: &Batch) -> Vec<String> {
    b.failures.iter().map(|(n, e)| format!("{n}: {}", e.text())).collect()
}

fn single(k: &str) -> PyPartitionKey {
    PyPartitionKey::of(k.to_string())
}

fn boom() -> StepError {
    StepError::Host { error: Obj(9), text: "ValueError: boom".to_string() }
}

#[test]
fn a_failure_is_recorded_marked_and_reported() {
    let mut b = batch(None);
    b.record_failure_no_hooks("a", boom(), &plain(), 7);
    assert_eq!(effects(&b), owned(&["a classed failure 'ValueError: boom'"]));
    assert!(b.was_failed("a") && !b.was_failed("b"));
    assert_eq!(failures(&b), owned(&["a: ValueError: boom"]));
    b.record_own_failure("b", "why".to_string(), 8);
    assert_eq!(effects(&b)[1], "b classed failure 'ExecutionError: why'");
}

#[test]
fn a_failure_of_a_partitioned_step_is_keyed_too_but_for_actions() {
    let key = PyPartitionKey::Batch { members: vec![single("x"), single("y")] };
    let mut b = batch(Some(key.copy()));
    b.record_own_failure("a", "why".to_string(), 7);
    assert_eq!(
        effects(&b),
        owned(&[
            "a classed failure 'ExecutionError: why'",
            "a[batch] failure 'ExecutionError: why'",
        ])
    );
    let mut act = Batch::new(Origin::new("here".to_string(), "run".to_string()), Some(key), true, plain());
    act.record_own_failure("a", "why".to_string(), 7);
    assert_eq!(effects(&act).len(), 1);
}

#[test]
fn every_member_that_was_not_marked_gets_the_record() {
    let key = PyPartitionKey::single(owned(&["x", "y", "z"])).ok().unwrap();
    let mut b = batch(Some(key));
    let marks: Vec<Mark> = vec![(single("y"), "bad".to_string()), (single("y"), "worse".to_string())];
    b.stash_failed_partitions(&step("a"), &marks);
    b.emit_keyed(
        "a",
        EventType::Deletion { action: "purge".to_string() },
        &vec![],
        &vec![],
        3,
    );
    assert_eq!(
        effects(&b),
        owned(&["a[y] failure 'worse'", "a[x] deleted purge", "a[z] deleted purge"])
    );
    let mut whole = batch(None);
    whole.emit_keyed(
        "a",
        EventType::ActionCompleted { action: "go".to_string() },
        &vec![],
        &vec![],
        3,
    );
    assert_eq!(effects(&whole), owned(&["a acted go"]));
}

#[test]
fn marks_of_a_multi_asset_stand_under_each_output() {
    let mut b = batch(Some(single("x")));
    b.stash_failed_partitions(&many("m", &["o", "p"]), &vec![(single("x"), "bad".to_string())]);
    assert!(b.failed_partitions.contains("o") && b.failed_partitions.contains("p"));
    assert!(!b.failed_partitions.contains("m"));
    let mut c = batch(None);
    c.stash_failed_partitions(&step("a"), &vec![]);
    assert!(!c.failed_partitions.contains("a"));
}

#[test]
fn plain_records() {
    let mut b = batch(None);
    b.emit_start("a", 1);
    b.emit_step_retry("a", 2, FailureReason::Timeout, 1_500, 2);
    b.emit_success("a", 3);
    let logs = CapturedLogs {
        stdout: "out".to_string(),
        stderr: String::new(),
        logs: String::new(),
    };
    b.emit_captured_logs("a", Some(&logs), 4);
    b.emit_captured_logs("a", None, 5);
    let silent =
        CapturedLogs { stdout: String::new(), stderr: String::new(), logs: String::new() };
    b.emit_captured_logs("a", Some(&silent), 6);
    assert_eq!(effects(&b), owned(&["a start", "a retry 2 1500", "a success", "a log"]));
    assert!(b.mark_graph_started("g".to_string()));
    assert!(!b.mark_graph_started("g".to_string()));
}

#[test]
fn completed_steps_are_passed_over() {
    let mut b = batch(None);
    let mut done = NameSet::new();
    done.insert("a".to_string());
    let r = b.classify_step(&done, &nodes(vec![("a", node())]), &step("a"), 1);
    assert!(matches!(r, StepAction::Handled));
    assert!(b.effects.is_empty());
}

#[test]
fn failure_spreads_along_the_plan() {
    let mut b = batch(None);
    b.mark_failed("up".to_string());
    let s = ExecutionStep { plan_dependencies: owned(&["ok", "up"]), ..many("m", &["o", "p"]) };
    let r = b.classify_step(&NameSet::new(), &nodes(vec![("m", node())]), &s, 1);
    assert!(matches!(r, StepAction::Handled));
    assert!(b.was_failed("o") && b.was_failed("p"));
    assert_eq!(
        failures(&b),
        owned(&[
            "o: ExecutionError: Skipped: upstream dependency failed",
            "p: ExecutionError: Skipped: upstream dependency failed",
        ])
    );
}

#[test]
fn a_skipped_graph_asset_runs_its_failure_hooks() {
    let mut b = batch(None);
    b.mark_failed("g/t".to_string());
    let g = NodeInfo { is_graph_asset: true, has_failure_hooks: true, ..node() };
    let s = ExecutionStep { plan_dependencies: owned(&["g/t"]), ..step("g") };
    b.classify_step(&NameSet::new(), &nodes(vec![("g", g)]), &s, 1);
    assert_eq!(
        effects(&b)[1],
        "g failure hooks of g with 'Skipped: upstream dependency failed'"
    );
}

#[test]
fn mapped_virtual_and_graph_steps() {
    let all = nodes(vec![
        ("g", NodeInfo { is_graph_asset: true, has_success_hooks: true, ..node() }),
        ("g/t", node()),
    ]);
    let none = NameSet::new();
    let mut b = batch(None);
    let mapped = ExecutionStep {
        kind: StepKind::Mapped { fan_out_source: "src".to_string(), max_concurrency: None },
        ..step("m")
    };
    assert!(matches!(
        b.classify_step(&none, &all, &mapped, 1),
        StepAction::Mapped { fan_out_source } if fan_out_source == "src"
    ));
    let collect = ExecutionStep {
        kind: StepKind::Collect { mapped_step: "m".to_string() },
        ..step("c")
    };
    assert!(matches!(b.classify_step(&none, &all, &collect, 1), StepAction::Handled));
    assert!(matches!(b.classify_step(&none, &all, &step("g/t"), 1), StepAction::Execute));
    assert!(matches!(b.classify_step(&none, &all, &step("g/t"), 1), StepAction::Execute));
    assert!(matches!(b.classify_step(&none, &all, &step("g"), 1), StepAction::Handled));
    assert_eq!(
        effects(&b),
        owned(&[
            "c start",
            "c success",
            "g start",
            "g made None",
            "g success",
            "g success hooks of g with 0",
        ])
    );
}

fn action(verb: &str, exclusive: bool) -> ActionInfo {
    ActionInfo { verb: verb.to_string(), exclusive, retry: None }
}

#[test]
fn pools_of_exclusive_actions() {
    assert_eq!(implicit_asset_pool("a"), "__asset__:a");
    let ex = || NodeInfo {
        pools: vec![("db".to_string(), 2)],
        actions: vec![action("purge", true), action("peek", false)],
        ..node()
    };
    let all = nodes(vec![("a", ex()), ("g", ex()), ("g/t", node()), ("o", ex())]);
    let b = batch(Some(PyPartitionKey::single(owned(&["x", "y"])).ok().unwrap()));
    let (pools, scope) = b.step_pools(&all, Some("purge"), &step("a"));
    assert_eq!(pools, vec![("db".to_string(), 2), ("__asset__:a".to_string(), 1)]);
    let scope = scope.unwrap();
    assert!(scope.exclusive);
    assert_eq!(scope.partitions, Some(owned(&["x", "y"])));
    let (pools, scope) = b.step_pools(&all, Some("peek"), &step("a"));
    assert_eq!(pools.len(), 1);
    assert!(scope.is_none());
    let (pools, scope) = b.step_pools(&all, None, &step("g/t"));
    assert_eq!(pools, vec![("__asset__:g".to_string(), 1)]);
    assert!(!scope.unwrap().exclusive);
    let (pools, _) = b.step_pools(&all, None, &many("m", &["o", "q"]));
    assert_eq!(pools, vec![("__asset__:o".to_string(), 1)]);
    let empty = batch(Some(PyPartitionKey::Batch { members: vec![] }));
    assert_eq!(empty.asset_scope(true).partitions, None);
}

#[test]
fn policies_and_computes() {
    let inline = ActionInfo { retry: Some(RetryRef::Inline(5)), ..action("go", false) };
    let named =
        ActionInfo { retry: Some(RetryRef::Named("slow".to_string())), ..action("wait", false) };
    let all = nodes(vec![
        ("a", NodeInfo { retry: Some(1), actions: vec![inline, named], ..node() }),
        ("o", node()),
        ("p", NodeInfo { retry: Some(2), compute: Some(3), ..node() }),
    ]);
    let mut policies = NameMap::new();
    policies.insert("slow".to_string(), 8u64);
    assert_eq!(retry_policy(&all, false, "a"), Some(1));
    assert_eq!(retry_policy(&all, true, "a"), None);
    assert_eq!(retry_policy_for(&all, &policies, None, false, &step("a")), Some(1));
    assert_eq!(retry_policy_for(&all, &policies, Some("go"), true, &step("a")), Some(5));
    assert_eq!(retry_policy_for(&all, &policies, Some("wait"), false, &step("a")), Some(8));
    assert_eq!(retry_policy_for(&all, &policies, Some("none"), false, &step("a")), None);
    let m = many("m", &["o", "p"]);
    assert_eq!(retry_policy_for(&all, &policies, None, false, &m), Some(2));
    assert_eq!(compute_for(&all, &m), Some(3));
    assert_eq!(compute_for(&all, &step("a")), None);
}

#[test]
fn exceptions_classify() {
    let facts = |memory, timeout, interrupt, mro: &[&str]| {
        classify_pyerr(ExceptionFacts { memory, timeout, interrupt, mro: owned(mro) }).reason
    };
    assert_eq!(facts(true, true, false, &[]), FailureReason::OutOfMemory);
    assert_eq!(facts(false, true, true, &[]), FailureReason::Timeout);
    assert_eq!(facts(false, false, true, &[]), FailureReason::Cancelled);
    assert_eq!(
        facts(false, false, false, &["asyncio.exceptions.CancelledError"]),
        FailureReason::Cancelled
    );
    assert_eq!(
        facts(false, false, false, &["x", "concurrent.futures.process.BrokenProcessPool"]),
        FailureReason::Infrastructure
    );
    assert_eq!(facts(false, false, false, &["builtins.ValueError"]), FailureReason::Error);
}

#[test]
fn a_backoff_is_slept_in_slices() {
    assert!(matches!(backoff_slice(0), Backoff::Over));
    assert!(matches!(backoff_slice(400), Backoff::Last(400)));
    assert!(matches!(backoff_slice(1_000_000_000), Backoff::Last(1_000_000_000)));
    assert!(matches!(backoff_slice(2_500_000_000), Backoff::Slice(1_000_000_000)));
}

#[test]
fn retries_of_an_earlier_run_count() {
    let mut b = batch(None);
    b.emit_start("a", 1);
    b.emit_step_retry("a", 2, FailureReason::Error, 0, 2);
    b.emit_step_retry("a", 3, FailureReason::Error, 0, 3);
    let records: Vec<EventRecord> = b
        .effects
        .into_iter()
        .filter_map(|e| match e {
            Effect::Event(r) => Some(r),
            _ => None,
        })
        .collect();
    assert_eq!(prior_step_retries::<()>(Ok(&records)), 2);
    assert_eq!(prior_step_retries(Err("unread")), 0);
}

fn info() -> ResultInfo {
    ResultInfo {
        failed_partitions: vec![],
        dynamic_keys: None,
        data_version: None,
        metadata: vec![],
    }
}

#[test]
fn an_external_asset_is_observed() {
    let mut b = batch(None);
    let all = nodes(vec![("a", NodeInfo { is_external: true, ..node() })]);
    let i = ResultInfo { data_version: Some("v1".to_string()), ..info() };
    let r = b.process_step_result(&all, &NameMap::new(), &step("a"), "a", &i, 1);
    assert!(matches!(r, ResultStart::Done));
    assert_eq!(effects(&b), owned(&["a seen Some(\"v1\")", "a success"]));
    assert_eq!(b.data_versions.get("a").unwrap(), "v1");
}

#[test]
fn a_single_output_from_first_to_last() {
    let mut b = batch(None);
    b.record_data_version("up".to_string(), "v0".to_string());
    let all = nodes(vec![("a", NodeInfo { has_success_hooks: true, ..node() })]);
    let s = ExecutionStep { graph_dependencies: owned(&["up", "gone"]), ..step("a") };
    let i = ResultInfo { dynamic_keys: Some(owned(&["k"])), ..info() };
    let r = b.process_step_result(&all, &NameMap::new(), &s, "a", &i, 1);
    assert!(matches!(r, ResultStart::Walk));
    assert_eq!(b.step_dynamic_keys.get("a").unwrap(), &owned(&["k"]));
    let mut run = b.begin_outputs(&s, "a", &i.dynamic_keys);
    assert_eq!(run.input_versions, vec![("up".to_string(), "v0".to_string())]);
    b.first_output(&mut run, &s, &vec![]);
    assert_eq!(b.output_target(&all, &s, "a").ok().unwrap(), "a");
    b.output_materialized(
        &mut run,
        &all,
        &s,
        "a",
        Some(Obj(4)),
        &vec![],
        None,
        Some("declared".to_string()),
        "fresh".to_string(),
        None,
        2,
    );
    b.finish_outputs(&run, &all, &s, "a", None, None, 3);
    assert_eq!(
        effects(&b),
        owned(&[
            "a keys k under declared",
            "a made Some(\"declared\")",
            "a success",
            "a success hooks of a with 4",
        ])
    );
    assert_eq!(b.data_versions.get("a").unwrap(), "declared");
}

#[test]
fn the_final_task_of_a_graph_writes_the_graph_too() {
    let mut b = batch(None);
    let all = nodes(vec![("g", node()), ("g/t", node())]);
    let mut last = NameMap::new();
    last.insert("g/t".to_string(), "g".to_string());
    let r = b.process_step_result(&all, &last, &step("g/t"), "g/t", &info(), 1);
    assert!(matches!(r, ResultStart::WriteGraph(g) if g == "g"));
    let r = b.process_step_result(&all, &last, &step("g/t"), "g/t[0]", &info(), 1);
    assert!(matches!(r, ResultStart::Walk));
}

#[test]
fn outputs_that_were_not_yielded_fail() {
    let mut b = batch(None);
    let all = nodes(vec![("m", node()), ("o", node()), ("p", node())]);
    let s = many("m", &["o", "p"]);
    let mut run = b.begin_outputs(&s, "m", &None);
    b.output_observed(&mut run, "o", &vec![], None, 1);
    assert_eq!(
        b.output_target(&all, &s, "zzz").err().unwrap().message,
        "Output 'zzz' not found in node_map"
    );
    b.finish_outputs(&run, &all, &s, "m", None, None, 2);
    assert_eq!(
        failures(&b),
        owned(&["p: ExecutionError: Generator multi-asset did not yield output 'p'"])
    );
    assert!(b.was_failed("p") && !b.was_failed("o"));
}

#[test]
fn an_error_among_outputs_fails_those_that_are_left() {
    let mut b = batch(None);
    let all = nodes(vec![("m", NodeInfo { has_failure_hooks: true, ..node() })]);
    let s = many("m", &["o", "p"]);
    let mut run = b.begin_outputs(&s, "m", &None);
    b.output_observed(&mut run, "o", &vec![], None, 1);
    b.finish_outputs(&run, &all, &s, "m", Some((boom(), plain())), None, 2);
    assert_eq!(
        effects(&b),
        owned(&[
            "o seen None",
            "o success",
            "p classed failure 'ValueError: boom'",
            "m failure hooks of m with 'ValueError: boom'",
        ])
    );
    assert_eq!(failures(&b), owned(&["m: ValueError: boom"]));
}

#[test]
fn what_a_worker_sent_back_is_recorded() {
    let mut b = batch(None);
    let all = nodes(vec![("m", node()), ("o", node()), ("p", node())]);
    let item = |name: &str, kind, v: Option<&str>| WorkerItem {
        name: name.to_string(),
        kind,
        metadata: vec![],
        data_version: v.map(|s| s.to_string()),
    };
    let reply = WorkerReply {
        captured_logs: None,
        outputs: Ok(vec![
            (Ok(item("o", ResultKind::Output, None)), "fresh".to_string()),
            (Ok(item("p", ResultKind::Observation, Some("v2"))), "unused".to_string()),
            (Err((boom(), plain())), "unused".to_string()),
        ]),
        dynamic_keys: None,
        failed_partitions: vec![],
    };
    b.process_worker_result(&all, &many("m", &["o", "p"]), "m", reply, &vec![], None, 5);
    assert_eq!(
        effects(&b),
        owned(&[
            "o made Some(\"fresh\")",
            "o success",
            "p seen Some(\"v2\")",
            "p success",
            "m classed failure 'ValueError: boom'",
        ])
    );
    assert_eq!(b.data_versions.get("p").unwrap(), "v2");
    let mut c = batch(None);
    let broken = WorkerReply {
        captured_logs: None,
        outputs: Err((boom(), plain())),
        dynamic_keys: None,
        failed_partitions: vec![],
    };
    c.process_worker_result(&all, &step("m"), "m[k]", broken, &vec![], None, 5);
    assert_eq!(failures(&c), owned(&["m[k]: ValueError: boom"]));
}

#[test]
fn outcomes() {
    let all = nodes(vec![("a", NodeInfo { has_failure_hooks: true, ..node() })]);
    let mut b = batch(None);
    let logs = CapturedLogs {
        stdout: "x".to_string(),
        stderr: String::new(),
        logs: String::new(),
    };
    let more = b.process_outcome(
        &all,
        &step("a"),
        "a",
        &owned(&["a"]),
        WorkOutcome::FullResult { captured_logs: Some(logs) },
        1,
    );
    assert!(more);
    let more = b.process_outcome(
        &all,
        &step("a"),
        "a",
        &owned(&["a"]),
        WorkOutcome::Error {
            error: boom(),
            classified: plain(),
            captured_logs: None,
            failure_config: None,
        },
        2,
    );
    assert!(!more);
    assert_eq!(
        effects(&b),
        owned(&[
            "a log",
            "a classed failure 'ValueError: boom'",
            "a failure hooks of a with 'ValueError: boom'",
        ])
    );
}

#[test]
fn versions_of_inputs() {
    let mut v = NameMap::new();
    v.insert("b".to_string(), "2".to_string());
    v.insert("a".to_string(), "1".to_string());
    assert_eq!(
        collect_input_data_versions(&v, &owned(&["a", "c", "b"])),
        vec![("a".to_string(), "1".to_string()), ("b".to_string(), "2".to_string())]
    );
}

#[test]
fn fresh_versions_are_version_four_identifiers() {
    let v = fresh_version();
    assert_eq!(v.len(), 36);
    assert_eq!((&v[8..9], &v[13..15], &v[18..19], &v[23..24]), ("-", "-4", "-", "-"));
    assert_eq!(v.as_bytes()[14], b'4');
    assert_ne!(v, fresh_version());
}

#[test]
fn errors_print() {
    assert_eq!(StepError::Own(Fault::execution("x".to_string())).text(), "ExecutionError: x");
    assert_eq!(boom().text(), "ValueError: boom");
}
