use rivers::code_location::{
    collect_run_ids, empty_text_to_none, empty_to_none, executor_label, get_partition_key_index,
    get_partition_keys_page, node_partition_def_info, proto_partition_key_to_py,
    proto_partition_range_to_py, proto_strategy_to_py, TickRequest, WireKey, WireRange,
    WireSelection, WireStrategy,
};
use rivers::errors::{Fault, FaultKind};
use rivers::executor::kind::Executor;
use rivers::executor::obj::Obj;
use rivers::gil_threads::GilThreads;
use rivers::hooks::PyHook;
use rivers::log_capture::{start, take, Capture, TeeWriter};
use rivers::metadata::{coerce_to_metadata_value, HostValue, MetadataValue, RawValue, Real};
use rivers::moment::Moment;
use rivers::net::{no_port_text, Bind, PortFound, PortSearch};
use rivers::partitions::backfill_strategy::PyBackfillStrategy;
use rivers::partitions::definition::PartitionsDefinition;
use rivers::partitions::grid::{Interval, TimeGrid};
use rivers::partitions::key_set::OrderedKeySet;
use rivers::partitions::readings::Readings;
use rivers::requests::{
    launch_backfill, selected_assets, single_outcome, status_label, unknown_backfill, WireBackfill,
};
use rivers::text::{
    contains_text, decimal_text, is_before, join_texts, quoted_text, reserved_char,
    signed_decimal_text, sort_texts, split_once, split_texts,
};

fn owned(v: &[&str]) -> Vec<String> {
    v.iter().map(|s| s.to_string()).collect()
}

fn nothing() -> HostValue {
    HostValue {
        metadata: None,
        boolean: None,
        integer: None,
        real: None,
        text: None,
        is_none: false,
        schema: None,
        class_name: "object".to_string(),
    }
}

fn number(f: f64) -> Real {
    Real { bits: f.to_bits(), text: format!("{f:?}") }
}

fn text(s: &str) -> MetadataValue {
    MetadataValue::Text { value: s.to_string() }
}

#[test]
fn what_was_written_after_the_start_is_taken_once() {
    let mut c = Capture { buffer: None };
    let io = TeeWriter.make_writer();
    assert_eq!(io.write::<()>(&mut c, b"before", Ok(())), Ok(6));
    start(&mut c);
    assert_eq!(io.write::<()>(&mut c, b"one ", Ok(())), Ok(4));
    assert_eq!(io.write(&mut c, b"lost", Err("broken")), Err("broken"));
    assert_eq!(io.write::<()>(&mut c, b"two", Ok(())), Ok(3));
    assert_eq!(take(&mut c), "one two");
    assert_eq!(take(&mut c), "");
}

#[test]
fn a_start_forgets_and_bytes_that_are_no_text_are_dropped() {
    let mut c = Capture { buffer: None };
    let io = TeeWriter.make_writer();
    start(&mut c);
    let _ = io.write::<()>(&mut c, b"old", Ok(()));
    start(&mut c);
    let _ = io.write::<()>(&mut c, &[0xc3, 0xa9], Ok(()));
    assert_eq!(take(&mut c), "\u{e9}");
    start(&mut c);
    let _ = io.write::<()>(&mut c, &[0xff], Ok(()));
    assert_eq!(take(&mut c), "");
}

#[test]
fn ports_are_tried_in_turn() {
    assert!(matches!(PortSearch::begin(8000, 8001), PortSearch::Try(8000)));
    assert!(matches!(PortSearch::begin(2, 1), PortSearch::Exhausted));
    assert_eq!(PortSearch::address("localhost", 8000), "localhost:8000");
    let bound: PortFound<u8, u8> = PortSearch::judge(8000, 8001, Bind::Bound(7));
    assert!(matches!(bound, PortFound::Listening(7)));
    let next: PortFound<u8, u8> = PortSearch::judge(8000, 8001, Bind::InUse);
    assert!(matches!(next, PortFound::Next(PortSearch::Try(8001))));
    let last: PortFound<u8, u8> = PortSearch::judge(8001, 8001, Bind::InUse);
    assert!(matches!(last, PortFound::Next(PortSearch::Exhausted)));
    let failed: PortFound<u8, u8> = PortSearch::judge(8001, 8001, Bind::Failed(3));
    assert!(matches!(failed, PortFound::Failed(3)));
    let top: PortFound<u8, u8> = PortSearch::judge(65535, 65535, Bind::InUse);
    assert!(matches!(top, PortFound::Next(PortSearch::Exhausted)));
    assert_eq!(no_port_text(8000, 8001), "No available port in range 8000-8001");
}

#[test]
fn finished_threads_are_dropped_when_one_is_spawned() {
    let mut t = GilThreads::new();
    t.spawn(1, &vec![]);
    t.spawn(2, &vec![]);
    t.spawn(3, &vec![1]);
    assert_eq!(t.drain(), vec![2, 3]);
    assert!(t.drain().is_empty());
}

#[test]
fn hooks_take_the_name_of_their_function() {
    let f = PyHook::success_ctor(Some(Obj(1)), Some("notify".to_string()), None);
    assert_eq!(f.repr(), "Hook.Success(name='notify')");
    let f = PyHook::failure_ctor(Some(Obj(1)), Some("notify".to_string()), Some("n".to_string()));
    assert_eq!(f.repr(), "Hook.Failure(name='n')");
    assert!(f.is_failure() && !f.is_success());
    let e = f.call(vec![(Obj(2), "g".to_string())]).err().unwrap();
    assert_eq!(e.kind, FaultKind::AssetDefinition);
    assert_eq!(
        e.message,
        "Hook is already bound to a function and cannot be called as a decorator again"
    );
}

#[test]
fn a_hook_can_decorate() {
    let open = PyHook::success_ctor(None, None, None);
    assert_eq!(open.resolve_name(), "");
    let bound = open.call(vec![(Obj(2), "g".to_string())]).ok().unwrap();
    assert_eq!(bound.resolve_name(), "g");
    assert_eq!(bound.func(), Some(Obj(2)));
    assert!(bound.is_success());
    let named = PyHook::failure_ctor(None, None, Some("x".to_string()));
    assert_eq!(named.call(vec![(Obj(2), "g".to_string())]).ok().unwrap().resolve_name(), "x");
    assert_eq!(
        named.call(vec![]).err().unwrap().message,
        "Hook decorator expects exactly one argument (the function to wrap)"
    );
}

#[test]
fn urls_are_kept_in_canonical_form() {
    let a = MetadataValue::url("https://example.com".to_string()).ok().unwrap();
    let b = MetadataValue::url("https://example.com/".to_string()).ok().unwrap();
    assert!(a.same(&b));
    assert_eq!(a.repr(), "MetadataValue.url(\"https://example.com/\")");
    let e = MetadataValue::url("no url".to_string()).err().unwrap();
    assert_eq!(e.kind, FaultKind::Metadata);
    assert_eq!(e.message, "Invalid URL: relative URL without a base");
}

#[test]
fn metadata_prints() {
    assert_eq!(MetadataValue::Int { value: -3 }.repr(), "MetadataValue.int(-3)");
    assert_eq!(MetadataValue::Float { value: number(1.0) }.repr(), "MetadataValue.float_(1.0)");
    assert_eq!(MetadataValue::Bool { value: true }.repr(), "MetadataValue.bool_(true)");
    assert_eq!(MetadataValue::Null.repr(), "MetadataValue.null()");
    assert_eq!(MetadataValue::Bytes { value: 9 }.repr(), "MetadataValue.bytes(9)");
    let sql = |d: Option<&str>| MetadataValue::Sql {
        query: "select 1".to_string(),
        dialect: d.map(|s| s.to_string()),
    };
    assert_eq!(sql(None).repr(), "MetadataValue.sql(\"select 1\")");
    assert_eq!(sql(Some("duck")).repr(), "MetadataValue.sql(\"select 1\", dialect=\"duck\")");
    let code = MetadataValue::CodeBlock { code: "x".to_string(), language: Some("py".to_string()) };
    assert_eq!(code.repr(), "MetadataValue.code_block(\"x\", language=\"py\")");
    let list = MetadataValue::List { values: vec![text("a"), MetadataValue::Null] };
    assert_eq!(
        list.repr(),
        "MetadataValue.list_([MetadataValue.text(\"a\"), MetadataValue.null()])"
    );
    let range = MetadataValue::DateRange {
        start: Moment { secs: 1_704_067_200, nanos: 0 },
        end: Moment { secs: 1_704_153_599, nanos: 999_999_999 },
    };
    assert_eq!(
        range.repr(),
        "MetadataValue.date_range(datetime.datetime(2024, 1, 1, 0, 0, 0), \
         datetime.datetime(2024, 1, 1, 23, 59, 59, 999999))"
    );
    let schema = MetadataValue::Schema {
        ipc_bytes: vec![1, 2],
        fields: Some(vec![("id".to_string(), "Int64".to_string())]),
    };
    assert_eq!(schema.repr(), "MetadataValue.schema({id: Int64})");
    let opaque = MetadataValue::Schema { ipc_bytes: vec![1, 2], fields: None };
    assert_eq!(opaque.repr(), "MetadataValue.schema(<2 bytes>)");
    assert!(schema.same(&opaque));
}

#[test]
fn metadata_of_one_sort_and_value_is_the_same() {
    assert!(text("a").same(&text("a")));
    assert!(!text("a").same(&text("b")));
    assert!(!text("a").same(&MetadataValue::Path { value: "a".to_string() }));
    let list = |v: Vec<MetadataValue>| MetadataValue::List { values: v };
    assert!(list(vec![text("a")]).same(&list(vec![text("a")])));
    assert!(!list(vec![text("a")]).same(&list(vec![text("a"), text("a")])));
    let f = |x: f64| MetadataValue::Float { value: number(x) };
    assert!(f(0.0).same(&f(-0.0)));
    assert!(!f(f64::NAN).same(&f(f64::NAN)));
    assert!(!f(1.0).same(&f(2.0)));
}

#[test]
fn raw_values() {
    assert!(matches!(text("a").raw_value(), RawValue::Text("a")));
    assert!(matches!(MetadataValue::Bytes { value: 4 }.raw_value(), RawValue::Bytes(4)));
    assert!(matches!(MetadataValue::Null.raw_value(), RawValue::Null));
    let sql = MetadataValue::Sql { query: "q".to_string(), dialect: None };
    assert!(matches!(sql.raw_value(), RawValue::Text("q")));
}

#[test]
fn host_values_become_metadata() {
    let b = HostValue { boolean: Some(true), integer: Some(1), ..nothing() };
    assert!(matches!(coerce_to_metadata_value(b), Ok(MetadataValue::Bool { value: true })));
    let i = HostValue { integer: Some(7), real: Some(number(7.0)), ..nothing() };
    assert!(matches!(coerce_to_metadata_value(i), Ok(MetadataValue::Int { value: 7 })));
    let f = HostValue { real: Some(number(0.5)), ..nothing() };
    assert!(matches!(coerce_to_metadata_value(f), Ok(MetadataValue::Float { .. })));
    let s = HostValue { text: Some("x".to_string()), ..nothing() };
    assert!(coerce_to_metadata_value(s).ok().unwrap().same(&text("x")));
    let n = HostValue { is_none: true, ..nothing() };
    assert!(matches!(coerce_to_metadata_value(n), Ok(MetadataValue::Null)));
    let m = HostValue { metadata: Some(text("m")), text: Some("t".to_string()), ..nothing() };
    assert!(coerce_to_metadata_value(m).ok().unwrap().same(&text("m")));
    let a = HostValue { schema: Some(Ok((vec![1], None))), ..nothing() };
    assert!(matches!(coerce_to_metadata_value(a), Ok(MetadataValue::Schema { .. })));
    let w = HostValue {
        schema: Some(Err(Fault::new(FaultKind::Type, "no".to_string()))),
        ..nothing()
    };
    assert_eq!(coerce_to_metadata_value(w).err().unwrap().message, "no");
    let e = coerce_to_metadata_value(nothing()).err().unwrap();
    assert_eq!(e.kind, FaultKind::Type);
    assert_eq!(
        e.message,
        "Cannot coerce object to MetadataValue. Use MetadataValue.text(), .int(), etc."
    );
}

#[test]
fn texts() {
    assert!(is_before("a", "b") && is_before("a", "ab") && !is_before("b", "a"));
    assert_eq!(sort_texts(owned(&["b", "", "a", "ab"])), owned(&["", "a", "ab", "b"]));
    assert_eq!(join_texts(&owned(&["a", "b"]), ", "), "a, b");
    assert_eq!(join_texts(&vec![], ", "), "");
    assert!(contains_text("hello", "ell") && !contains_text("hello", "lle"));
    assert!(contains_text("x", ""));
    assert_eq!(reserved_char("a=b,c"), Some(','));
    assert_eq!(reserved_char("abc"), None);
    assert_eq!(split_once("a.b.c", '.'), Some(("a".to_string(), "b.c".to_string())));
    assert_eq!(split_once("abc", '.'), None);
    assert_eq!(split_texts("a.b..c", '.'), owned(&["a", "b", "", "c"]));
    assert_eq!(split_texts("", '.'), owned(&[""]));
    assert_eq!(decimal_text(0), "0");
    assert_eq!(decimal_text(u64::MAX), "18446744073709551615");
    assert_eq!(signed_decimal_text(i64::MIN), "-9223372036854775808");
    assert_eq!(quoted_text("tab\t"), "\"tab\\t\"");
}

#[test]
fn faults_print_their_class() {
    let f = Fault::execution("boom".to_string());
    assert_eq!(f.text(), "ExecutionError: boom");
    assert_eq!(FaultKind::Metadata.name(), "InvalidMetadataError");
}

#[test]
fn requests_leave_out_what_is_empty() {
    assert_eq!(empty_to_none::<u8>(vec![]), None);
    assert_eq!(empty_to_none(vec![1]), Some(vec![1]));
    assert_eq!(empty_text_to_none(String::new()), None);
    assert_eq!(empty_text_to_none("x".to_string()), Some("x".to_string()));
    let ids = collect_run_ids(&vec![
        TickRequest::Run(Some("a".to_string())),
        TickRequest::Other,
        TickRequest::Run(None),
        TickRequest::Run(Some("b".to_string())),
    ]);
    assert_eq!(ids, owned(&["a", "pending", "b"]));
}

fn fixed(v: &[&str]) -> PartitionsDefinition {
    PartitionsDefinition::Static { keys: OrderedKeySet::new(owned(v)) }
}

#[test]
fn pages_of_keys() {
    let now = Moment { secs: 0, nanos: 0 };
    let d = fixed(&["alpha", "beta", "gamma"]);
    let (page, total) = get_partition_keys_page(&d, now, "", 1, 5).ok().unwrap();
    assert_eq!(page, owned(&["beta", "gamma"]));
    assert_eq!(total, 3);
    let (page, total) = get_partition_keys_page(&d, now, "m", 0, 5).ok().unwrap();
    assert_eq!(page, owned(&["gamma"]));
    assert_eq!(total, 1);
    let none = Readings::new();
    assert_eq!(get_partition_key_index(&d, "gamma", now, &none).ok().unwrap(), 2);
    assert_eq!(get_partition_key_index(&d, "delta", now, &none).ok().unwrap(), -1);
}

#[test]
fn what_is_said_of_a_scheme() {
    let now = Moment { secs: 0, nanos: 0 };
    let i = node_partition_def_info(&fixed(&["a", "b"]), now);
    assert_eq!(i.kind, "Static");
    assert_eq!(i.keys, owned(&["a", "b"]));
    assert_eq!(i.total_count, 2);
    assert!(!i.keys_truncated);
    let long = PartitionsDefinition::TimeWindow {
        grid: TimeGrid {
            cron_schedule: None,
            interval_seconds: Some(Interval {
                ns: 1_000_000_000,
                finite: true,
                text: "1".to_string(),
            }),
            start: now,
            end: Some(Moment { secs: 5_000, nanos: 0 }),
            fmt: "%s".to_string(),
        },
    };
    let i = node_partition_def_info(&long, now);
    assert_eq!(i.kind, "TimeWindow");
    assert_eq!(i.keys.len(), 1_000);
    assert_eq!(i.keys[999], "999");
    assert_eq!(i.total_count, 5_000);
    assert!(i.keys_truncated);
    let m = PartitionsDefinition::Multi {
        dimensions: vec![("l".to_string(), fixed(&["a"])), ("n".to_string(), fixed(&["1", "2"]))],
    };
    let i = node_partition_def_info(&m, now);
    assert_eq!(i.kind, "Multi");
    assert_eq!(i.dimensions.len(), 2);
    assert_eq!(i.dimensions[1].keys, owned(&["1", "2"]));
    let d = PartitionsDefinition::Dynamic { name: "users".to_string() };
    let i = node_partition_def_info(&d, now);
    assert_eq!(i.kind, "Dynamic");
    assert_eq!(i.dynamic_name, "users");
}

#[test]
fn keys_ranges_and_strategies_of_a_request() {
    let k = proto_partition_key_to_py(WireKey::Single(owned(&["a"])));
    assert_eq!(k.repr(), "PartitionKey(\"a\")");
    let k = proto_partition_key_to_py(WireKey::Multi(vec![("d".to_string(), owned(&["1"]))]));
    assert_eq!(k.repr(), "PartitionKey({\"d\": \"1\"})");
    let r = proto_partition_range_to_py(WireRange::Single("a".to_string(), "b".to_string()));
    assert_eq!(r.unwrap().repr(), "PartitionKeyRange.single(from_key=\"a\", to_key=\"b\")");
    let r = proto_partition_range_to_py(WireRange::Multi(vec![(
        "d".to_string(),
        Some(WireSelection::Keys(owned(&["1"]))),
    )]));
    assert_eq!(r.unwrap().repr(), "PartitionKeyRange.multi({\"d\": {\"1\"}})");
    let r = proto_partition_range_to_py(WireRange::Multi(vec![("d".to_string(), None)]));
    assert!(r.is_none());
    let s = |n: &str| proto_strategy_to_py(WireStrategy::Shorthand(n.to_string()));
    assert!(matches!(s("single_run"), PyBackfillStrategy::SingleRun));
    assert!(matches!(s("multi_run"), PyBackfillStrategy::MultiRun));
    assert!(matches!(s("anything"), PyBackfillStrategy::MultiRun));
    let p = proto_strategy_to_py(WireStrategy::PerDimension(owned(&["a"]), owned(&["b"])));
    assert!(matches!(p, PyBackfillStrategy::PerDimension { .. }));
}

#[test]
fn labels_of_executors() {
    assert_eq!(executor_label(&None), "");
    assert_eq!(executor_label(&Some(Executor::in_process())), "InProcess");
    let p = Executor::parallel(Some(3), None, 8);
    assert_eq!(executor_label(&Some(p)), "Parallel(3)");
}

#[test]
fn a_request_for_a_backfill() {
    let empty = || WireBackfill {
        selection: owned(&["a"]),
        partition_keys: vec![],
        partition_range: None,
        strategy: None,
        failure_policy: String::new(),
        max_concurrency: None,
        tags: vec![],
        dry_run: false,
    };
    let r = launch_backfill(empty());
    assert_eq!(r.selection, owned(&["a"]));
    assert!(r.partition_keys.is_none() && r.partition_range.is_none() && r.strategy.is_none());
    assert!(r.failure_policy.is_none() && r.tags.is_none() && !r.dry_run);
    let r = launch_backfill(WireBackfill {
        partition_keys: vec![Some(WireKey::Single(owned(&["x"]))), None],
        strategy: Some(WireStrategy::Shorthand("single_run".to_string())),
        failure_policy: "continue".to_string(),
        max_concurrency: Some(3),
        tags: vec![
            ("k".to_string(), "1".to_string()),
            ("k".to_string(), "2".to_string()),
        ],
        dry_run: true,
        ..empty()
    });
    let keys = r.partition_keys.unwrap();
    assert_eq!(keys.len(), 1);
    assert_eq!(keys[0].display(), "x");
    assert!(matches!(r.strategy, Some(PyBackfillStrategy::SingleRun)));
    assert_eq!(r.failure_policy, Some("continue".to_string()));
    assert_eq!(r.max_concurrency, Some(3));
    assert_eq!(r.tags.unwrap().get("k").unwrap(), "2");
    assert!(r.dry_run);
}

#[test]
fn answers_to_requests() {
    assert_eq!(single_outcome::<u8, &str>(vec!["first", "last"], vec![1]), Err("last"));
    assert_eq!(single_outcome::<u8, &str>(vec![], vec![1, 2]), Ok(2));
    assert_eq!(selected_assets(vec![], owned(&["a", "b"])), owned(&["a", "b"]));
    assert_eq!(selected_assets(owned(&["b"]), owned(&["a", "b"])), owned(&["b"]));
    assert_eq!(unknown_backfill("b7"), "Backfill 'b7' not found");
    assert_eq!(status_label(true), "RUNNING");
    assert_eq!(status_label(false), "STOPPED");
}
