use rivers::errors::FaultKind;
use rivers::executor::batch::{Batch, Effect, StepError};
use rivers::executor::event_writer::{BatchWriter, Flush, WriterMsg};
use rivers::executor::events::{CapturedLogs, Classified, EventType, FailureReason, Origin};
use rivers::executor::kind::Executor;
use rivers::executor::kubernetes::{
    classify_failed_pod, count_step_failures, first_compute, outcome_of_events, worker_image,
    AttemptPoll, Compute, Container, JobLook, JobPhase, JobRun, PollOutcome, StepEvent, Terminated,
};
use rivers::executor::lifecycle::{LifeEnd, LifeEvent, LifePhase, LifeResult, Lifecycle};
use rivers::executor::obj::Obj;
use rivers::executor::orchestrate::{
    collect_fault, extract_mapping_key, find_step, instance_name, stored_keys, KeyLookup,
    LevelAction, LevelRun, MappedStepRecord, Source, SourceItem, StepInstance,
};
use rivers::executor::parallel::{split_instances, HandlerKind, Stage};
use rivers::executor::plan::{ExecutionPlan, ExecutionStep, NodeInfo, NodeMap, StepKind};
use rivers::executor::plan_run::{
    executor_key, external_deps, final_nodes, group_level, needs_bridge, PlanAction, PlanRun,
};
use rivers::executor::pool_claim::{
    duration_setting, jitter_ms, on_renewal, released_event, renewal_interval, ClaimPoll,
    ClaimStatus, ClaimStep, Renewal, CLAIM_TIMEOUT_NS,
};
use rivers::executor::run_lifecycle::{
    build_run_result, finalize_status, finish_run, started_run, status_stored, RunInit, RunOutcome,
    RunStart, RunStatus,
};
use rivers::executor::window::{Window, WindowAction};
use rivers::names::{NameMap, NameSet};

fn owned(v: &[&str]) -> Vec<String> {
    v.iter().map(|s| s.to_string()).collect()
}

fn plain() -> Classified {
    Classified { reason: FailureReason::Error, exc_types: vec![] }
}

fn origin() -> Origin {
    Origin::new("here".to_string(), "run".to_string())
}

fn batch() -> Batch {
    Batch::new(origin(), None, false, plain())
}

fn node() -> NodeInfo {
    NodeInfo {
        name: None,
        is_external: false,
        is_graph_asset: false,
        is_bash_task: false,
        is_async: false,
        has_annotations: false,
        has_success_hooks: false,
        has_failure_hooks: false,
        pools: vec![],
        actions: vec![],
        retry: None,
        compute: None,
        metadata: None,
        final_node: None,
        partitions_def: None,
        partition_mapping: NameMap::new(),
        param_remap: NameMap::new(),
    }
}

fn meta(v: &[(&str, &str)]) -> Option<NameMap<String>> {
    let mut m = NameMap::new();
    for (a, b) in v {
        m.insert(a.to_string(), b.to_string());
    }
    Some(m)
}

fn nodes(v: Vec<(&str, NodeInfo)>) -> NodeMap {
    let mut m = NameMap::new();
    for (n, i) in v {
        m.insert(n.to_string(), i);
    }
    m
}

fn step(name: &str) -> ExecutionStep {
    ExecutionStep {
        name: name.to_string(),
        outputs: vec![],
        kind: StepKind::Normal,
        plan_dependencies: vec![],
        graph_dependencies: vec![],
    }
}

fn mapped(name: &str, source: &str) -> ExecutionStep {
    ExecutionStep {
        kind: StepKind::Mapped { fan_out_source: source.to_string(), max_concurrency: Some(2) },
        ..step(name)
    }
}

fn plan(steps: Vec<ExecutionStep>) -> ExecutionPlan {
    ExecutionPlan { steps, verb: None }
}

fn failures(b: &Batch) -> Vec<String> {
    b.failures.iter().map(|(n, e)| format!("{n}: {}", e.text())).collect()
}

fn recorded(b: &Batch) -> Vec<String> {
    b.effects
        .iter()
        .map(|e| match e {
            Effect::Event(r) => format!("{} {}", r.asset_key, kind(&r.event_type)),
            Effect::FailureHooks { name, .. } => format!("{name} failure hooks"),
            other => format!("{other:?}"),
        })
        .collect()
}

fn kind(t: &EventType) -> &'static str {
    match t {
        EventType::StepStart => "start",
        EventType::StepSuccess => "success",
        EventType::StepFailure { .. } => "failure",
        EventType::StepRetry { .. } => "retry",
        EventType::LogOutput => "log",
        EventType::StepSlotClaimed => "claimed",
        EventType::StepSlotWaiting => "waiting",
        EventType::StepSlotRenewed => "renewed",
        EventType::StepSlotReleased => "released",
        _ => "other",
    }
}

fn items(n: u64) -> Source {
    Source::Items((1..=n).map(|i| SourceItem { item: Obj(i), dynamic: None }).collect())
}

fn instance(name: &str) -> StepInstance {
    StepInstance {
        idx: 0,
        instance_name: name.to_string(),
        mapping_key: None,
        event_names: owned(&[name]),
        fan_out: None,
        is_async: false,
        pools: vec![],
        scope: None,
    }
}

#[test]
fn items_are_numbered_or_carry_their_key() {
    let plain = SourceItem { item: Obj(5), dynamic: None };
    assert_eq!(extract_mapping_key(3, &plain), ("3".to_string(), Obj(5)));
    let keyed = SourceItem { item: Obj(5), dynamic: Some(("k".to_string(), Obj(6))) };
    assert_eq!(extract_mapping_key(3, &keyed), ("k".to_string(), Obj(6)));
    assert_eq!(instance_name("m", "k"), "m__k");
}

#[test]
fn keys_of_a_source() {
    let mut b = batch();
    b.record_dynamic_keys("ran".to_string(), owned(&["a"]));
    b.record_dynamic_keys("plain".to_string(), vec![]);
    b.record_data_version("known".to_string(), "v".to_string());
    assert!(matches!(b.predefined_keys("ran"), KeyLookup::Keys(k) if k == owned(&["a"])));
    assert!(matches!(b.predefined_keys("plain"), KeyLookup::Numbered));
    assert!(matches!(b.predefined_keys("known"), KeyLookup::Stored(v) if v == "v"));
    assert!(matches!(b.predefined_keys("unknown"), KeyLookup::Numbered));
    assert_eq!(stored_keys::<()>(Ok(Some(owned(&["k"])))), Some(owned(&["k"])));
    assert_eq!(stored_keys(Err("down")), None);
}

#[test]
fn one_instance_for_each_item() {
    let mut b = batch();
    let all = nodes(vec![("m", NodeInfo { is_async: true, ..node() }), ("src", node())]);
    let s = mapped("m", "src");
    let made = b.build_mapped_instances(&all, None, &s, 4, "src", items(2), None, 1).unwrap();
    assert_eq!(made.len(), 2);
    assert_eq!(made[1].instance_name, "m__1");
    assert_eq!(made[1].mapping_key, Some("1".to_string()));
    assert_eq!(made[1].event_names, owned(&["m__1"]));
    assert_eq!(made[1].fan_out, Some(("src".to_string(), Obj(2))));
    assert_eq!(made[1].idx, 4);
    assert!(made[1].is_async);
    let keys = Some(owned(&["x", "y", "z"]));
    let made = b.build_mapped_instances(&all, None, &s, 4, "src", items(2), keys, 1).unwrap();
    assert_eq!(made[0].instance_name, "m__x");
    assert!(b.failures.is_empty());
}

#[test]
fn a_source_that_fails_fails_the_mapped_step() {
    let all = nodes(vec![("m", node()), ("src", node())]);
    let s = mapped("m", "src");
    let fail = |source: Source| {
        let mut b = batch();
        assert!(b.build_mapped_instances(&all, None, &s, 0, "src", source, None, 1).is_none());
        assert!(b.was_failed("m"));
        failures(&b).remove(0)
    };
    assert_eq!(
        fail(Source::LoadFailed("e".to_string())),
        "m: ExecutionError: Failed to load fan-out source: e"
    );
    assert_eq!(
        fail(Source::NotIterable("e".to_string())),
        "m: ExecutionError: Fan-out source is not iterable: e"
    );
    assert_eq!(
        fail(Source::IterationFailed("e".to_string())),
        "m: ExecutionError: Failed to iterate fan-out source: e"
    );
}

#[test]
fn a_mapped_step_succeeds_with_all_its_instances() {
    let p = plan(vec![mapped("m", "src"), mapped("n", "src")]);
    let mut b = batch();
    b.mark_failed("n__1".to_string());
    let records = vec![
        MappedStepRecord { idx: 0, keys: owned(&["0", "1"]) },
        MappedStepRecord { idx: 1, keys: owned(&["0", "1"]) },
    ];
    b.finalize_mapped_steps(&p, &records, 9);
    assert_eq!(recorded(&b), owned(&["m success", "n failure"]));
    assert_eq!(b.mapped_instance_keys.get("m").unwrap(), &owned(&["0", "1"]));
    assert!(b.mapped_instance_keys.get("n").is_none());
    assert!(b.was_failed("n") && !b.was_failed("m"));
}

#[test]
fn a_level_is_classified_and_dispatched() {
    let all = nodes(vec![("a", node()), ("m", node()), ("src", node())]);
    let p = plan(vec![step("a"), mapped("m", "src")]);
    let mut b = batch();
    let mut level = LevelRun::new();
    let none = NameSet::new();
    assert!(matches!(level.take_step(&mut b, &none, &all, &p, 0, 1), LevelAction::Next));
    let LevelAction::Load(source) = level.take_step(&mut b, &none, &all, &p, 1, 1) else {
        panic!("the source of a mapped step is loaded");
    };
    assert_eq!(source, "src");
    let made =
        b.build_mapped_instances(&all, None, &p.steps[1], 1, &source, items(3), None, 2).unwrap();
    level.add_mapped(&p, 1, made);
    let (groups, records) = level.dispatch();
    assert_eq!(groups.len(), 2);
    assert_eq!(groups[0].0[0].instance_name, "a");
    assert_eq!(groups[0].1, None);
    assert_eq!(groups[1].0.len(), 3);
    assert_eq!(groups[1].1, Some(2));
    assert_eq!(records[0].keys, owned(&["0", "1", "2"]));
    assert_eq!(recorded(&b), owned(&["m start"]));
}

#[test]
fn collected_inputs_name_their_instances() {
    let collect = ExecutionStep {
        kind: StepKind::Collect { mapped_step: "m".to_string() },
        ..step("c")
    };
    let user = ExecutionStep { plan_dependencies: owned(&["a", "c", "gone"]), ..step("u") };
    let p = plan(vec![step("a"), mapped("m", "src"), collect, user]);
    let mut b = batch();
    b.record_mapped_keys("m".to_string(), owned(&["0", "1"]));
    let inputs = b.resolve_collect_overrides(&p, &p.steps[3]);
    assert_eq!(inputs.len(), 1);
    assert_eq!(inputs[0].name, "c");
    assert!(!inputs[0].stream);
    assert_eq!(inputs[0].instances, owned(&["m__0", "m__1"]));
    assert!(find_step(&p, "c").is_some());
    assert!(find_step(&p, "gone").is_none());
    assert_eq!(collect_fault("c", "e"), "Failed to resolve collect input 'c': e");
}

#[test]
fn all_instances_of_a_batch_can_fail() {
    let p = plan(vec![step("a")]);
    let all = nodes(vec![("a", NodeInfo { has_failure_hooks: true, ..node() })]);
    let mut b = batch();
    b.fail_all_instances(&all, &p, &vec![instance("a__0"), instance("a__1")], "no", 1);
    assert_eq!(
        recorded(&b),
        owned(&["a__0 failure", "a__0 failure hooks", "a__1 failure", "a__1 failure hooks"])
    );
    assert_eq!(failures(&b), owned(&["a__0: ExecutionError: no", "a__1: ExecutionError: no"]));
}

fn life(pools: bool, permits: bool, prior: bool) -> Lifecycle {
    Lifecycle::new(origin(), "a".to_string(), owned(&["a"]), pools, permits, prior, 1)
}

fn history(l: &Lifecycle) -> Vec<&'static str> {
    l.records.iter().map(|r| kind(&r.event_type)).collect()
}

fn failed(delay: u64) -> LifeEvent {
    LifeEvent::Failed { logs: None, retry: Some((FailureReason::Error, delay)) }
}

#[test]
fn a_simple_life() {
    let mut l = life(false, false, false);
    assert!(matches!(l.phase, LifePhase::Work));
    l.advance(LifeEvent::Worked, 2);
    assert!(matches!(l.phase, LifePhase::End(LifeEnd::Worked)));
    assert_eq!(history(&l), vec!["start"]);
    assert!(matches!(LifeEnd::Worked.settle(true), LifeResult::Last));
}

#[test]
fn a_life_sleeps_without_slots_and_permit() {
    let mut l = life(true, true, true);
    assert!(matches!(l.phase, LifePhase::Permit));
    l.advance(LifeEvent::Permitted, 1);
    assert!(matches!(l.phase, LifePhase::Slots));
    l.advance(LifeEvent::Claimed, 2);
    assert!(matches!(l.phase, LifePhase::Prior));
    l.advance(LifeEvent::Retries(2), 2);
    assert_eq!(l.attempt, 3);
    let logs = CapturedLogs {
        stdout: "o".to_string(),
        stderr: String::new(),
        logs: String::new(),
    };
    l.advance(
        LifeEvent::Failed {
            logs: Some(logs),
            retry: Some((FailureReason::Timeout, 5_000_000)),
        },
        3,
    );
    assert!(matches!(l.phase, LifePhase::Backoff(5_000_000)));
    assert!(!l.holds_slots && !l.holds_permit);
    l.advance(LifeEvent::Slept { cancelled: false }, 4);
    assert!(matches!(l.phase, LifePhase::PermitAgain));
    l.advance(LifeEvent::Permitted, 4);
    assert!(matches!(l.phase, LifePhase::SlotsAgain));
    l.advance(LifeEvent::Claimed, 4);
    assert!(matches!(l.phase, LifePhase::Probe));
    l.advance(LifeEvent::Probed { cancelled: false }, 5);
    assert_eq!(l.attempt, 4);
    assert!(l.holds_slots && l.holds_permit);
    l.advance(LifeEvent::Worked, 6);
    assert!(!l.holds_slots && !l.holds_permit);
    assert_eq!(history(&l), vec!["start", "log", "retry", "start"]);
    assert!(matches!(
        l.records[2].event_type,
        EventType::StepRetry { attempt: 3, delay_ms: 5, reason: FailureReason::Timeout, .. }
    ));
}

#[test]
fn lives_that_end_early() {
    let mut l = life(true, false, false);
    l.advance(LifeEvent::Refused("full".to_string()), 1);
    let LifePhase::End(end) = l.phase else { panic!("it has ended") };
    assert!(matches!(
        end.settle(true),
        LifeResult::Unstarted(m) if m == "Failed to claim pool slots: full"
    ));
    let mut l = life(true, false, false);
    l.advance(LifeEvent::Claimed, 1);
    l.advance(failed(1), 1);
    l.advance(LifeEvent::Slept { cancelled: false }, 1);
    l.advance(LifeEvent::Refused("full".to_string()), 1);
    let LifePhase::End(end) = l.phase else { panic!("it has ended") };
    assert!(matches!(
        end.settle(true),
        LifeResult::Instead { message, keep_config: true }
            if message == "Failed to re-claim pool slots for retry: full"
    ));
    let mut l = life(false, false, false);
    l.advance(failed(0), 1);
    assert!(matches!(l.phase, LifePhase::Probe));
    l.advance(LifeEvent::Probed { cancelled: true }, 1);
    assert!(matches!(l.phase, LifePhase::End(LifeEnd::Cancelled)));
    assert!(matches!(LifeEnd::Cancelled.settle(false), LifeResult::LastWithoutLogs));
    let mut l = life(false, false, false);
    l.advance(LifeEvent::Lost("gone".to_string()), 1);
    let LifePhase::End(end) = l.phase else { panic!("it has ended") };
    assert!(matches!(
        end.settle(false),
        LifeResult::Instead { message, keep_config: false }
            if message == "spawn_blocking join error: gone"
    ));
    assert!(matches!(
        LifeEnd::Unclaimed("x".to_string()).settle(false),
        LifeResult::Instead { keep_config: false, .. }
    ));
}

#[test]
fn claiming_slots() {
    let pools = vec![("db".to_string(), 1), ("api".to_string(), 2)];
    let mut c = ClaimPoll::new(origin(), "a".to_string());
    let pending = || ClaimStatus::Pending { reason: "full".to_string(), expired: false };
    let (s, e) = c.on_status(&pools, pending(), "600s", 1);
    assert!(matches!(s, ClaimStep::Wait { warn: false }));
    let e = e.unwrap();
    assert_eq!((e.code_location_id.as_str(), e.run_id.as_str()), ("here", "run"));
    assert_eq!(kind(&e.event_type), "waiting");
    assert_eq!(e.metadata, vec![("reason".to_string(), "full".to_string())]);
    let (_, e) = c.on_status(&pools, pending(), "600s", 1);
    assert!(e.is_none());
    c.attempt = 60;
    let (s, _) = c.on_status(&pools, pending(), "600s", 1);
    assert!(matches!(s, ClaimStep::Wait { warn: true }));
    let (s, _) = c.on_status(&pools, pending(), "600s", 1);
    assert!(matches!(s, ClaimStep::Wait { warn: false }));
    let late = ClaimStatus::Pending { reason: "full".to_string(), expired: true };
    let (s, _) = c.on_status(&pools, late, "600s", 1);
    assert!(matches!(
        s,
        ClaimStep::Fail(m) if m == "step 'a' timed out waiting for pool slots after 600s"
    ));
    let (s, _) = c.on_status(&pools, ClaimStatus::Failed("down".to_string()), "600s", 1);
    assert!(matches!(s, ClaimStep::Fail(m) if m == "down"));
    let (s, e) = c.on_status(&pools, ClaimStatus::Claimed, "600s", 1);
    assert!(matches!(s, ClaimStep::Done));
    assert_eq!(e.unwrap().metadata, vec![("pools".to_string(), "db,api".to_string())]);
}

#[test]
fn leases_are_renewed_until_none_is_left() {
    assert_eq!(renewal_interval(300), 100);
    assert_eq!(renewal_interval(2), 1);
    assert!(matches!(on_renewal::<()>(&origin(), "a", Ok(0), 1), Renewal::Stop));
    assert!(matches!(
        on_renewal::<()>(&origin(), "a", Ok(2), 1),
        Renewal::Continue(Some(e)) if kind(&e.event_type) == "renewed"
    ));
    assert!(matches!(on_renewal(&origin(), "a", Err("down"), 1), Renewal::Continue(None)));
    assert_eq!(kind(&released_event(&origin(), "a", 1).event_type), "released");
}

#[test]
fn durations_from_settings() {
    assert_eq!(duration_setting(Some("1m 30s"), 7), 90_000_000_000);
    assert_eq!(duration_setting(Some("250ms"), 7), 250_000_000);
    assert_eq!(duration_setting(Some("soon"), CLAIM_TIMEOUT_NS), 600_000_000_000);
    assert_eq!(duration_setting(None, 7), 7);
    assert_eq!(duration_setting(Some("123456789012345s"), 7), 123_456_789_012_345_000_000_000);
    assert_eq!(duration_setting(Some("18446744073709551615s 1000000000ns"), 7), 7);
    assert_eq!(duration_setting(Some("1000000000000000s"), 7), 1_000_000_000_000_000_000_000_000);
    assert_eq!(duration_setting(Some("0000000000000001s"), 7), 1_000_000_000);
    let longest = 18_446_744_073_709_551_615_999_999_999;
    assert_eq!(duration_setting(Some("18446744073709551615s 999999999ns"), 7), longest);
    assert_eq!(
        duration_setting(Some("18446744073709551614s 1000ms 0.5s"), 7),
        18_446_744_073_709_551_615_500_000_000
    );
    assert_eq!(duration_setting(Some("18446744073709551615s 999ms 1ms"), 7), 7);
    assert_eq!(duration_setting(Some("18446744073709551616s"), 7), 7);
    assert_eq!(duration_setting(Some("1 0s2.5min"), 7), 160_000_000_000);
    assert_eq!(duration_setting(Some("3us 2\u{b5}s 1nsec"), 7), 5_001);
    assert_eq!(
        duration_setting(Some("1y 1M 1w 1d 1h 1m 1s 1ms"), 7),
        34_882_477_001_000_000
    );
    assert_eq!(duration_setting(Some("0"), 7), 0);
    assert_eq!(duration_setting(Some("5"), 7), 7);
    assert_eq!(duration_setting(Some(""), 7), 7);
    assert_eq!(jitter_ms(1_234, 500), 234);
    assert_eq!(jitter_ms(1_234, 0), 0);
}

#[test]
fn records_are_written_in_batches() {
    let mut w = BatchWriter::new();
    let mut written: Vec<u64> = vec![];
    for i in 0..70u64 {
        let (flushes, warn) = w.on_message(WriterMsg::Event(i));
        assert!(!warn);
        assert_eq!(flushes.len(), usize::from(i == 63));
        for f in flushes {
            if let Flush::Events(v) = f {
                written.extend(v);
            }
        }
    }
    let (none, _) = w.on_message(WriterMsg::Log(500));
    assert!(none.is_empty());
    let (flushes, warn) = w.on_message(WriterMsg::Tick(300));
    assert!(warn);
    assert_eq!(flushes.len(), 2);
    for f in flushes {
        match f {
            Flush::Events(v) => written.extend(v),
            Flush::Logs(v) => assert_eq!(v, vec![500]),
        }
    }
    assert_eq!(written, (0..70u64).collect::<Vec<u64>>());
    let (_, warn) = w.on_message(WriterMsg::Tick(300));
    assert!(!warn);
    w.on_message(WriterMsg::Tick(200));
    let (_, warn) = w.on_message(WriterMsg::Tick(256));
    assert!(!warn);
    w.on_message(WriterMsg::Tick(127));
    let (_, warn) = w.on_message(WriterMsg::Tick(256));
    assert!(warn);
    w.on_message(WriterMsg::Event(99));
    let (flushes, _) = w.on_message(WriterMsg::Closed);
    assert!(matches!(&flushes[0], Flush::Events(v) if *v == vec![99]));
}

#[test]
fn status_of_a_run() {
    assert_eq!(finalize_status(Ok(true), true).ok().unwrap(), RunStatus::Canceled);
    assert_eq!(finalize_status(Ok(false), true).ok().unwrap(), RunStatus::Success);
    assert_eq!(finalize_status(Ok(false), false).ok().unwrap(), RunStatus::Failure);
    assert_eq!(
        finalize_status(Err("down".to_string()), true).err().unwrap().message,
        "Failed to check cancellation: down"
    );
    assert_eq!(status_stored(RunStatus::Canceled, Ok(())).ok().unwrap(), RunStatus::Canceled);
    let lost = status_stored(RunStatus::Success, Err("down".to_string())).err().unwrap();
    assert_eq!(lost.kind, FaultKind::Execution);
    assert_eq!(lost.message, "Failed to update run status: down");
    assert!(matches!(started_run(RunInit::Create, Ok(true)), Ok(RunStart::Go)));
    assert!(matches!(started_run(RunInit::Existing, Ok(false)), Ok(RunStart::Skipped)));
    assert_eq!(
        started_run(RunInit::Create, Err("x".to_string())).err().unwrap().message,
        "Failed to create run record: x"
    );
    assert_eq!(
        started_run(RunInit::Existing, Err("x".to_string())).err().unwrap().message,
        "Failed to transition run to Started: x"
    );
}

#[test]
fn result_of_a_run() {
    let fail = || vec![("a".to_string(), StepError::execution("no".to_string()))];
    let names = owned(&["a", "b"]);
    let r = build_run_result("r".to_string(), RunStatus::Failure, names.clone(), &fail());
    assert!(!r.success);
    assert_eq!(r.materialized_assets, names);
    assert_eq!(r.failed_assets, vec![("a".to_string(), "ExecutionError: no".to_string())]);
    let raised =
        finish_run("r".to_string(), RunStatus::Failure, names.clone(), fail(), true);
    assert!(matches!(raised, RunOutcome::Raise(e) if e.text() == "ExecutionError: no"));
    let told = finish_run("r".to_string(), RunStatus::Failure, names.clone(), fail(), false);
    assert!(matches!(told, RunOutcome::Result(r) if !r.success));
    let good = finish_run("r".to_string(), RunStatus::Success, names, vec![], true);
    assert!(matches!(good, RunOutcome::Result(r) if r.success));
}

#[test]
fn executors() {
    assert_eq!(Executor::in_process().repr(), "Executor.InProcess()");
    assert_eq!(
        Executor::parallel(None, None, 8).repr(),
        "Executor.Parallel(max_workers=8)"
    );
    assert_eq!(
        Executor::parallel(Some(2), Some(3), 8).repr(),
        "Executor.Parallel(max_workers=2, max_async_concurrent=3)"
    );
    let k = Executor::kubernetes(
        Some("img".to_string()),
        None,
        None,
        "sa".to_string(),
        "1".to_string(),
        "1Gi".to_string(),
    );
    assert_eq!(k.repr(), "Executor.Kubernetes(worker_image='img', namespace=auto)");
    assert!(matches!(Executor::from_metadata("in_process", 8), Ok(Executor::InProcess)));
    assert!(matches!(
        Executor::from_metadata("parallel", 8),
        Ok(Executor::Parallel { max_workers: 8, max_async_concurrent: None })
    ));
    let e = Executor::from_metadata("cloud", 8).err().unwrap();
    assert_eq!(e.kind, FaultKind::Configuration);
    assert_eq!(
        e.message,
        "Unknown executor in rivers/executor metadata: 'cloud'. \
         Valid values: 'in_process', 'parallel'"
    );
}

#[test]
fn steps_choose_their_executor() {
    let all = nodes(vec![
        ("a", NodeInfo { metadata: meta(&[("rivers/executor", "parallel")]), ..node() }),
        (
            "g",
            NodeInfo {
                metadata: meta(&[
                    ("rivers/executor", "parallel"),
                    ("rivers/node/executor", "in_process"),
                ]),
                final_node: Some("g/t".to_string()),
                is_async: true,
                ..node()
            },
        ),
        ("b", node()),
    ]);
    assert_eq!(executor_key(&all, "a"), "parallel");
    assert_eq!(executor_key(&all, "g"), "parallel");
    assert_eq!(executor_key(&all, "g/t"), "in_process");
    assert_eq!(executor_key(&all, "b"), "__default__");
    let p = plan(vec![step("a"), step("b"), step("g/t"), step("c")]);
    let groups = group_level(&all, &p, &vec![0, 1, 2, 3]);
    let b = groups.iter().find(|(k, _)| k == "__default__").unwrap();
    assert_eq!(b.1, vec![1, 3]);
    assert_eq!(groups.len(), 3);
    assert!(!needs_bridge(&all, &p));
    assert!(needs_bridge(&all, &plan(vec![step("g")])));
    assert_eq!(final_nodes(&all).get("g/t").unwrap(), "g");
}

#[test]
fn inputs_from_outside_the_plan() {
    let a = ExecutionStep { graph_dependencies: owned(&["x", "b"]), ..step("a") };
    let b = ExecutionStep { graph_dependencies: owned(&["x", "o"]), ..step("b") };
    let m = ExecutionStep { outputs: owned(&["o"]), ..step("m") };
    let deps = external_deps(&plan(vec![a, b, m]));
    assert_eq!(deps.names, owned(&["x"]));
}

#[test]
fn a_plan_runs_level_by_level() {
    let all = nodes(vec![
        ("a", node()),
        ("b", NodeInfo { metadata: meta(&[("rivers/executor", "cloud")]), ..node() }),
        ("c", node()),
    ]);
    let p = plan(vec![step("a"), step("b"), step("c")]);
    let mut run = PlanRun::new(vec![vec![0, 1], vec![2]], &p);
    let mut b = batch();
    let none = NameSet::new();
    assert!(run.between_levels());
    assert!(matches!(run.next(&p, &mut b, 4, 1), PlanAction::AskCancelled));
    assert!(run.enter_level(&all, &p, &none, &b, false).is_none());
    let mut ran = vec![];
    loop {
        match run.next(&p, &mut b, 4, 1) {
            PlanAction::Run { executor, steps } => {
                assert!(executor.is_none());
                ran.extend(steps);
            }
            other => {
                assert!(matches!(other, PlanAction::AskCancelled));
                break;
            }
        }
    }
    assert_eq!(ran, vec![0]);
    assert_eq!(
        failures(&b),
        owned(&[
            "b: ConfigurationError: ConfigurationError: Unknown executor in rivers/executor \
             metadata: 'cloud'. Valid values: 'in_process', 'parallel'",
        ])
    );
    assert_eq!(run.enter_level(&all, &p, &none, &b, true).unwrap(), owned(&["c"]));
    assert!(matches!(run.next(&p, &mut b, 4, 1), PlanAction::Finish));
}

#[test]
fn a_window_keeps_its_size() {
    let mut w = Window::new(4, 2);
    assert!(matches!(w.action(), WindowAction::Submit(0)));
    w.submitted();
    assert!(matches!(w.action(), WindowAction::Submit(1)));
    w.submitted();
    assert!(matches!(w.action(), WindowAction::Wait));
    assert!(w.completed(0, true));
    assert!(matches!(w.action(), WindowAction::Submit(2)));
    w.submitted();
    assert!(matches!(w.action(), WindowAction::Wait));
    assert!(w.completed(1, false));
    assert!(matches!(w.action(), WindowAction::Wait));
    w.completed(2, true);
    assert!(matches!(w.action(), WindowAction::Done));
}

#[test]
fn instances_are_split_by_what_they_need() {
    let mut quick = instance("q");
    quick.is_async = true;
    let mut slots = instance("s");
    slots.pools = vec![("db".to_string(), 1)];
    let mut again = instance("r");
    again.idx = 1;
    let s = split_instances(
        vec![instance("a"), quick, slots, again, instance("b")],
        &vec![false, true],
    );
    let names = |v: &Vec<StepInstance>| -> Vec<String> {
        v.iter().map(|i| i.instance_name.clone()).collect()
    };
    assert_eq!(names(&s.async_instances), owned(&["q"]));
    assert_eq!(names(&s.no_pool), owned(&["a", "b"]));
    assert_eq!(names(&s.pool), owned(&["s", "r"]));
    assert!(s.all_non_mapped);
    assert!(s.needs_workers());
    assert_eq!(
        s.stages(true, None),
        vec![Stage::SubmitAll, Stage::RunAsync, Stage::Collect, Stage::Pool(None)]
    );
    let one = split_instances(vec![instance("a")], &vec![false]);
    assert_eq!(one.stages(true, None), vec![Stage::InProcess]);
}

#[test]
fn handlers_in_memory_cannot_serve_other_processes() {
    let mut kinds = NameMap::new();
    kinds.insert("a".to_string(), HandlerKind::InMemory);
    let mut b = batch();
    assert!(!b.check_handlers(&step("a"), false, &kinds, 1));
    assert!(failures(&b)[0].contains("InMemoryIOHandler"));
    let mut shared = NameMap::new();
    shared.insert("a".to_string(), HandlerKind::Shared);
    let mut c = batch();
    assert!(c.check_handlers(&step("a"), false, &shared, 1));
    assert!(c.failures.is_empty());
    let mut d = batch();
    assert!(!d.check_pod_handler("a", &HandlerKind::InMemory, 1));
    assert_eq!(
        failures(&d)[0],
        "a: ExecutionError: Asset 'a' uses InMemoryIOHandler which cannot work with Kubernetes \
         execution. InMemoryIOHandler stores data in process-local memory that is not \
         accessible from step pods. Use PickleIOHandler or DeltaIOHandler instead."
    );
}

#[test]
fn pods_classify_by_how_they_ended() {
    let ended = |reason: Option<&str>, exit_code| Container {
        state: Some(Terminated { reason: reason.map(|s| s.to_string()), exit_code }),
        last_state: None,
    };
    let of = |c: Container| classify_failed_pod(Some(&vec![c]));
    assert_eq!(of(ended(Some("OOMKilled"), 1)), FailureReason::OutOfMemory);
    assert_eq!(of(ended(None, 137)), FailureReason::OutOfMemory);
    assert_eq!(of(ended(Some("DeadlineExceeded"), 1)), FailureReason::Timeout);
    assert_eq!(of(ended(Some("Error"), 1)), FailureReason::Error);
    assert_eq!(of(ended(None, 0)), FailureReason::Infrastructure);
    let before = Container {
        state: None,
        last_state: Some(Terminated { reason: None, exit_code: 137 }),
    };
    assert_eq!(of(before), FailureReason::OutOfMemory);
    assert_eq!(classify_failed_pod(None), FailureReason::Infrastructure);
}

#[test]
fn attempts_are_judged_by_their_own_failures() {
    let fail = |keyed, reason| StepEvent::Failure { keyed, reason, exc_types: owned(&["E"]) };
    let old = vec![fail(false, None), fail(true, None), StepEvent::Other];
    assert_eq!(count_step_failures(&old), 1);
    assert!(outcome_of_events(&old, 1).is_none());
    let new = vec![fail(false, None), fail(false, Some(FailureReason::Timeout))];
    assert!(matches!(
        outcome_of_events(&new, 1),
        Some(PollOutcome::Failed { reason: FailureReason::Timeout, exc_types })
            if exc_types == owned(&["E"])
    ));
    assert!(matches!(
        outcome_of_events(&vec![fail(false, None)], 0),
        Some(PollOutcome::Failed { reason: FailureReason::Error, .. })
    ));
    let good = vec![fail(false, None), StepEvent::Success];
    assert!(matches!(outcome_of_events(&good, 0), Some(PollOutcome::Success)));
    let poll = AttemptPoll::new(1);
    assert!(matches!(poll.on_records(Some(&good), Some(true)), Some(PollOutcome::Success)));
    assert!(matches!(poll.on_records(Some(&old), Some(true)), Some(PollOutcome::Cancelled)));
    assert!(poll.on_records(Some(&old), Some(false)).is_none());
    assert!(poll.on_records(None, None).is_none());
}

#[test]
fn a_failed_job_gets_some_grace() {
    let mut p = AttemptPoll::new(0);
    assert!(matches!(p.on_job(Some(true)), JobLook::Again));
    assert!(matches!(p.on_job(Some(false)), JobLook::Again));
    assert!(matches!(p.on_job(None), JobLook::Again));
    assert!(matches!(p.on_job(Some(true)), JobLook::Again));
    assert!(matches!(p.on_job(Some(true)), JobLook::Classify));
}

fn compute(cpu: &str, memory: &str) -> Compute {
    Compute { cpu: Some(cpu.to_string()), memory: Some(memory.to_string()), gpu: None }
}

fn job(permits: bool, escalates: bool, recorded: Vec<FailureReason>) -> JobRun {
    JobRun::new(origin(), "a".to_string(), permits, escalates, recorded, compute("1", "1Gi"))
}

#[test]
fn a_step_job_from_attempt_to_attempt() {
    let mut j = job(true, false, vec![FailureReason::Timeout]);
    assert_eq!(j.attempt, 2);
    assert!(matches!(j.phase, JobPhase::Permit));
    j.permitted();
    assert!(j.holds_permit);
    let fail =
        || StepEvent::Failure { keyed: false, reason: None, exc_types: vec![] };
    j.listed(&vec![fail(), fail()]);
    assert!(matches!(j.phase, JobPhase::Create(1)));
    j.created(true);
    assert!(matches!(j.phase, JobPhase::Poll(1)));
    j.polled(false, Some((FailureReason::OutOfMemory, 2_000_000)));
    assert!(matches!(j.phase, JobPhase::Record(FailureReason::OutOfMemory, 2_000_000)));
    let e = j.retry_recorded(Some("{}".to_string()), 5);
    assert_eq!((e.code_location_id.as_str(), e.run_id.as_str()), ("here", "run"));
    assert!(matches!(
        e.event_type,
        EventType::StepRetry {
            attempt: 2,
            reason: FailureReason::OutOfMemory,
            delay_ms: 2,
            next_compute: Some(t),
        } if t == "{}"
    ));
    assert!(!j.holds_permit);
    assert!(matches!(j.phase, JobPhase::Backoff(2_000_000)));
    j.slept(false);
    assert_eq!(j.attempt, 3);
    j.permitted();
    j.listed(&vec![]);
    j.created(true);
    j.polled(true, None);
    assert!(matches!(j.phase, JobPhase::End(true)));
    let mut k = job(false, false, vec![]);
    assert!(matches!(k.phase, JobPhase::Events));
    k.listed(&vec![]);
    k.created(false);
    assert!(matches!(k.phase, JobPhase::End(false)));
}

#[test]
fn a_restart_replays_the_recorded_reasons() {
    let mut j =
        job(false, true, vec![FailureReason::OutOfMemory, FailureReason::Infrastructure]);
    assert_eq!(j.attempt, 3);
    assert!(matches!(j.phase, JobPhase::Grow(FailureReason::OutOfMemory, None)));
    j.grown(compute("1", "2Gi"));
    assert!(matches!(j.phase, JobPhase::Grow(FailureReason::Infrastructure, None)));
    j.grown(compute("1", "2Gi"));
    assert!(matches!(j.phase, JobPhase::Events));
    j.listed(&vec![]);
    j.created(true);
    j.polled(false, Some((FailureReason::OutOfMemory, 7)));
    assert!(matches!(j.phase, JobPhase::Grow(FailureReason::OutOfMemory, Some(7))));
    j.grown(compute("1", "4Gi"));
    assert_eq!(j.compute.memory.as_deref(), Some("4Gi"));
    assert!(matches!(j.phase, JobPhase::Record(FailureReason::OutOfMemory, 7)));
    let quiet = job(false, false, vec![FailureReason::OutOfMemory]);
    assert!(matches!(quiet.phase, JobPhase::Events));
}

#[test]
fn the_first_pod_takes_what_its_asset_says() {
    let own = Compute { cpu: None, memory: Some("8Gi".to_string()), gpu: Some("1".to_string()) };
    let c = first_compute(Some(own), "2".to_string(), "1Gi".to_string());
    assert_eq!(c.cpu.as_deref(), Some("2"));
    assert_eq!(c.memory.as_deref(), Some("8Gi"));
    assert_eq!(c.gpu.as_deref(), Some("1"));
    let d = first_compute(None, "2".to_string(), "1Gi".to_string());
    assert_eq!(d.memory.as_deref(), Some("1Gi"));
    assert!(d.gpu.is_none());
}

#[test]
fn pods_that_failed_are_marked() {
    let mut b = batch();
    b.record_pods(&vec![("a".to_string(), true), ("b".to_string(), false)]);
    assert!(b.was_failed("b") && !b.was_failed("a"));
    assert_eq!(failures(&b), owned(&["b: ExecutionError: K8s step pod failed for 'b'"]));
    assert!(b.effects.is_empty());
    assert_eq!(worker_image(Some("i".to_string())).ok().unwrap(), "i");
    let e = worker_image(None).err().unwrap();
    assert_eq!(e.kind, FaultKind::Configuration);
    assert_eq!(
        e.message,
        "Kubernetes executor requires a worker image. Set RIVERS_CODE_LOCATION_IMAGE env var or \
         pass worker_image to Executor.kubernetes()"
    );
}

#[test]
fn a_window_whose_submission_fails_drains() {
    let mut w = Window::new(3, 2);
    w.submitted();
    w.submit_failed();
    assert!(matches!(w.action(), WindowAction::Wait | WindowAction::Submit(_)));
    let mut w = Window::new(4, 2);
    w.submitted();
    w.submitted();
    assert_eq!(w.abandon(true), vec![0, 1, 2, 3]);
    assert!(matches!(w.action(), WindowAction::Done));
    let mut w = Window::new(4, 2);
    w.submitted();
    assert_eq!(w.abandon(false), vec![0]);
}

#[test]
fn inputs_and_failures_of_workers() {
    let mut b = batch();
    b.record_data_version("up".to_string(), "v".to_string());
    let s = ExecutionStep { graph_dependencies: owned(&["up"]), ..step("a") };
    assert_eq!(b.worker_inputs(&s, false), vec![("up".to_string(), "v".to_string())]);
    assert!(b.worker_inputs(&s, true).is_empty());
    b.fail_each(&owned(&["x", "y"]), &StepError::execution("no".to_string()), &plain(), 1);
    assert_eq!(failures(&b), owned(&["x: ExecutionError: no", "y: ExecutionError: no"]));
    assert!(b.was_failed("x") && b.was_failed("y"));
}
