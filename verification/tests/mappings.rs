use chrono::NaiveDate;
use rivers::errors::FaultKind;
use rivers::moment::Moment;
use rivers::names::NameMap;
use rivers::partitions::context::PartitionContext;
use rivers::partitions::definition::PartitionsDefinition;
use rivers::partitions::facts::{KeyFacts, Shift, Shifts};
use rivers::partitions::grid::{Interval, TimeGrid};
use rivers::partitions::key::PyPartitionKey;
use rivers::partitions::key_range::{
    validate_single_dim_range, DimensionSelection, PyPartitionKeyRange, SelectionSpec,
};
use rivers::partitions::key_set::OrderedKeySet;
use rivers::partitions::mapping::{
    MappingResolutionError, PartitionKeySelector, PartitionMapping, UpstreamKeyResolution,
};
use rivers::partitions::mapping_errors::{MappingValidationError, Side};
use rivers::partitions::mapping_make::MultiValue;
use rivers::partitions::readings::Readings;
use rivers::partitions::transport::{
    reconstruct_partition_key, reconstruct_partition_mapping, reconstruct_partitions_definition,
    KeyData, MappingData,
};

const NEW_YEAR: i64 = 1_704_067_200;
const DAY: i64 = 86_400;

fn owned(v: &[&str]) -> Vec<String> {
    v.iter().map(|s| s.to_string()).collect()
}

fn at(secs: i64) -> Moment {
    Moment { secs, nanos: 0 }
}

fn fixed(v: &[&str]) -> PartitionsDefinition {
    PartitionsDefinition::Static { keys: OrderedKeySet::new(owned(v)) }
}

fn daily(start: i64, end: Option<i64>) -> TimeGrid {
    TimeGrid {
        cron_schedule: Some("0 0 * * *".to_string()),
        interval_seconds: None,
        start: at(start),
        end: end.map(at),
        fmt: "%Y-%m-%d".to_string(),
    }
}

fn every(secs: i64, start: i64) -> PartitionsDefinition {
    PartitionsDefinition::TimeWindow {
        grid: TimeGrid {
            cron_schedule: None,
            interval_seconds: Some(Interval {
                ns: secs as i128 * 1_000_000_000,
                finite: true,
                text: secs.to_string(),
            }),
            start: at(start),
            end: None,
            fmt: "%Y-%m-%dT%H:%M:%S".to_string(),
        },
    }
}

fn days(start: i64, end: Option<i64>) -> PartitionsDefinition {
    PartitionsDefinition::TimeWindow { grid: daily(start, end) }
}

fn dims(v: Vec<(&str, PartitionsDefinition)>) -> PartitionsDefinition {
    PartitionsDefinition::Multi {
        dimensions: v.into_iter().map(|(n, d)| (n.to_string(), d)).collect(),
    }
}

fn one(k: &str) -> PyPartitionKey {
    PyPartitionKey::of(k.to_string())
}

fn multi(v: &[(&str, &[&str])]) -> PyPartitionKey {
    PyPartitionKey::multi(v.iter().map(|(n, v)| (n.to_string(), owned(v))).collect()).ok().unwrap()
}

fn no_facts() -> KeyFacts {
    KeyFacts { now: at(NEW_YEAR + 10 * DAY), readings: Readings::new(), shifts: Shifts::new() }
}

fn day_facts(keys: &[&str]) -> KeyFacts {
    let mut f = no_facts();
    for k in keys {
        let read = NaiveDate::parse_from_str(k, "%Y-%m-%d")
            .map(|d| at(d.and_hms_opt(0, 0, 0).unwrap().and_utc().timestamp()))
            .map_err(|e| e.to_string());
        f.readings.note(k.to_string(), "%Y-%m-%d".to_string(), read);
    }
    f
}

fn loads(r: Result<UpstreamKeyResolution, MappingResolutionError>) -> PyPartitionKey {
    match r {
        Ok(UpstreamKeyResolution::Load(Some(k))) => k,
        other => panic!("{other:?}"),
    }
}

fn fails(r: Result<UpstreamKeyResolution, MappingResolutionError>) -> String {
    r.err().unwrap().message()
}

fn edge(
    m: Option<&PartitionMapping>,
    down: Option<&PartitionsDefinition>,
    up: Option<&PartitionsDefinition>,
) -> String {
    match PartitionMapping::validate_edge(m, down, up, &no_facts()) {
        Ok(()) => String::new(),
        Err(e) => e.message(),
    }
}

fn names(v: &[(&str, &str)]) -> NameMap<String> {
    let mut m = NameMap::new();
    for (a, b) in v {
        m.insert(a.to_string(), b.to_string());
    }
    m
}

#[test]
fn identity_hands_the_key_on() {
    let m = PartitionMapping::identity();
    let k = multi(&[("a", &["1"])]);
    let r = m.resolve_upstream_key(Some(&k), None, None, &no_facts());
    assert!(loads(r).same(&k));
    assert!(matches!(
        m.resolve_upstream_key(None, None, None, &no_facts()),
        Ok(UpstreamKeyResolution::Load(None))
    ));
    let all = PartitionMapping::all_partitions();
    assert!(loads(all.resolve_upstream_key(Some(&k), None, None, &no_facts())).same(&k));
}

#[test]
fn static_maps_listed_keys_and_keeps_others() {
    let m = PartitionMapping::static_(names(&[("a", "x")]));
    let f = no_facts();
    assert!(loads(m.resolve_upstream_key(Some(&one("a")), None, None, &f)).same(&one("x")));
    assert!(loads(m.resolve_upstream_key(Some(&one("b")), None, None, &f)).same(&one("b")));
    let k = multi(&[("a", &["1"])]);
    assert_eq!(
        fails(m.resolve_upstream_key(Some(&k), None, None, &f)),
        "Static mapping only works with Single partition keys"
    );
    let none = PyPartitionKey::Single { key: vec![] };
    assert_eq!(
        fails(m.resolve_upstream_key(Some(&none), None, None, &f)),
        "Empty partition key"
    );
}

#[test]
fn a_time_window_mapping_shifts() {
    let up = days(NEW_YEAR, None);
    let mut f = day_facts(&["2024-01-01", "2024-01-02"]);
    f.shifts.entries.push(Shift {
        grid: daily(NEW_YEAR, None),
        key: "2024-01-02".to_string(),
        offset: -1,
        to: Ok("2024-01-01".to_string()),
    });
    f.shifts.entries.push(Shift {
        grid: daily(NEW_YEAR, None),
        key: "2024-01-01".to_string(),
        offset: -1,
        to: Ok("2023-12-31".to_string()),
    });
    let m = PartitionMapping::time_window(-1);
    let k = one("2024-01-02");
    assert!(loads(m.resolve_upstream_key(Some(&k), None, Some(&up), &f)).same(&one("2024-01-01")));
    let first = one("2024-01-01");
    assert_eq!(
        fails(m.resolve_upstream_key(Some(&first), None, Some(&up), &f)),
        "time_window(offset=-1) maps '2024-01-01' to '2023-12-31', which is not a partition of \
         the upstream definition"
    );
    assert_eq!(
        fails(m.resolve_upstream_key(Some(&k), None, None, &f)),
        "TimeWindow mapping requires a partitioned upstream"
    );
    let here = PartitionMapping::time_window(0);
    assert!(loads(here.resolve_upstream_key(Some(&k), None, None, &f)).same(&k));
    let wrong = multi(&[("a", &["1"])]);
    assert_eq!(
        fails(m.resolve_upstream_key(Some(&wrong), None, Some(&up), &f)),
        "TimeWindow mapping only works with Single partition keys"
    );
}

#[test]
fn a_multi_mapping_maps_each_dimension() {
    let m = PartitionMapping::multi(vec![
        ("up_a".to_string(), MultiValue::Pair("a".to_string(), PartitionMapping::identity())),
        (
            "b".to_string(),
            MultiValue::Mapping(PartitionMapping::static_(names(&[("1", "one")]))),
        ),
    ])
    .ok()
    .unwrap();
    let k = multi(&[("a", &["x"]), ("b", &["1"])]);
    let r = m.resolve_upstream_key(Some(&k), None, None, &no_facts());
    assert!(loads(r).same(&multi(&[("up_a", &["x"]), ("b", &["one"])])));
    let short = multi(&[("a", &["x"])]);
    assert_eq!(
        fails(m.resolve_upstream_key(Some(&short), None, None, &no_facts())),
        "Multi mapping expects downstream dimension 'b' but key has: [\"a\"]"
    );
    assert_eq!(
        fails(m.resolve_upstream_key(Some(&one("x")), None, None, &no_facts())),
        "Multi mapping requires a Multi partition key"
    );
    assert_eq!(m.dimension_mappings().unwrap().len(), 2);
    assert_eq!(
        m.repr(),
        "PartitionMapping.multi({\"up_a\": (\"a\", PartitionMapping.identity()), \
         \"b\": PartitionMapping.static_({\"1\": \"one\"})})"
    );
}

#[test]
fn a_multi_to_single_mapping_takes_or_fills_dimensions() {
    let m = PartitionMapping::multi_to_single("d".to_string(), None).ok().unwrap();
    let k = multi(&[("d", &["1"]), ("r", &["eu"])]);
    let f = no_facts();
    assert!(loads(m.resolve_upstream_key(Some(&k), None, None, &f)).same(&one("1")));
    let up = dims(vec![("d", fixed(&["1", "2"])), ("r", fixed(&["eu", "us"]))]);
    let r = loads(m.resolve_upstream_key(Some(&one("1")), None, Some(&up), &f));
    assert!(r.same(&multi(&[("d", &["1"]), ("r", &["eu", "us"])])));
    assert_eq!(
        fails(m.resolve_upstream_key(Some(&one("1")), None, None, &f)),
        "MultiToSingle (Single\u{2192}Multi) requires upstream PartitionsDefinition"
    );
    let s = fixed(&["1"]);
    assert_eq!(
        fails(m.resolve_upstream_key(Some(&one("1")), None, Some(&s), &f)),
        "MultiToSingle upstream must be a Multi PartitionsDefinition"
    );
    let other = multi(&[("r", &["eu"])]);
    assert_eq!(
        fails(m.resolve_upstream_key(Some(&other), None, None, &f)),
        "MultiToSingle expects dimension 'd' but key has: [\"r\"]"
    );
    let batch = PyPartitionKey::Batch { members: vec![] };
    assert_eq!(
        fails(m.resolve_upstream_key(Some(&batch), None, None, &f)),
        "MultiToSingle mapping does not support batched Set keys"
    );
    let open = dims(vec![
        ("d", fixed(&["1"])),
        ("r", PartitionsDefinition::Dynamic { name: "n".to_string() }),
    ]);
    assert_eq!(
        fails(m.resolve_upstream_key(Some(&one("1")), None, Some(&open), &f)),
        "Failed to get partition keys for dimension 'r': NotImplementedError: \
         Cannot enumerate dynamic partition keys"
    );
}

#[test]
fn specific_partitions_load_their_keys() {
    let m = PartitionMapping::specific_partitions(owned(&["b", "a"])).ok().unwrap();
    let r = loads(m.resolve_upstream_key(None, None, None, &no_facts()));
    assert!(r.same(&PyPartitionKey::single(owned(&["a", "b"])).ok().unwrap()));
    let e = PartitionMapping::specific_partitions(vec![]).err().unwrap();
    assert_eq!(e.kind, FaultKind::Validation);
    assert_eq!(e.message, "SpecificPartitions must have at least one partition key");
}

#[test]
fn for_keys_loads_or_skips() {
    let m = PartitionMapping::for_keys(vec![
        PartitionKeySelector::Key(one("z")),
        PartitionKeySelector::Range(PyPartitionKeyRange::single("a".to_string(), "b".to_string())),
    ])
    .ok()
    .unwrap();
    let f = no_facts();
    let load = |k: &str| m.resolve_upstream_key(Some(&one(k)), None, None, &f);
    assert!(matches!(load("z"), Ok(UpstreamKeyResolution::Load(None))));
    assert!(matches!(load("ab"), Ok(UpstreamKeyResolution::Load(None))));
    assert!(matches!(load("c"), Ok(UpstreamKeyResolution::Skip)));
    assert_eq!(
        fails(m.resolve_upstream_key(None, None, None, &f)),
        "ForKeys mapping requires a downstream partition key"
    );
    assert_eq!(
        PartitionMapping::for_keys(vec![]).err().unwrap().message,
        "for_keys must have at least one key or range"
    );
    assert_eq!(
        m.repr(),
        "PartitionMapping.for_keys([Key(Single { key: [\"z\"] }), Range(PyPartitionKeyRange \
         { inner: Single { from_key: \"a\", to_key: \"b\" } })])"
    );
}

#[test]
fn a_static_range_goes_by_position() {
    let m = PartitionMapping::for_keys(vec![PartitionKeySelector::Range(
        PyPartitionKeyRange::single("z".to_string(), "a".to_string()),
    )])
    .ok()
    .unwrap();
    let d = fixed(&["z", "m", "a", "b"]);
    let f = no_facts();
    let r = m.resolve_upstream_key(Some(&one("m")), Some(&d), None, &f);
    assert!(matches!(r, Ok(UpstreamKeyResolution::Load(None))));
    let r = m.resolve_upstream_key(Some(&one("b")), Some(&d), None, &f);
    assert!(matches!(r, Ok(UpstreamKeyResolution::Skip)));
}

#[test]
fn subset_loads_what_upstream_has() {
    let m = PartitionMapping::subset();
    let up = fixed(&["a"]);
    let f = no_facts();
    assert!(loads(m.resolve_upstream_key(Some(&one("a")), None, Some(&up), &f)).same(&one("a")));
    assert!(matches!(
        m.resolve_upstream_key(Some(&one("b")), None, Some(&up), &f),
        Ok(UpstreamKeyResolution::Skip)
    ));
    assert_eq!(
        fails(m.resolve_upstream_key(Some(&one("a")), None, None, &f)),
        "Subset mapping requires upstream to be partitioned"
    );
    let broken = PartitionsDefinition::TimeWindow {
        grid: TimeGrid { cron_schedule: Some("rubbish".to_string()), ..daily(NEW_YEAR, None) },
    };
    let g = day_facts(&["2024-01-02"]);
    let r = m.resolve_upstream_key(Some(&one("2024-01-02")), None, Some(&broken), &g);
    assert!(fails(r).starts_with(
        "PartitionDefinitionError: Invalid cron expression 'rubbish': "
    ));
}

#[test]
fn edges_without_partitions() {
    let d = fixed(&["a"]);
    assert_eq!(edge(None, None, None), "");
    assert_eq!(edge(Some(&PartitionMapping::Identity), None, None), "");
    assert_eq!(
        edge(Some(&PartitionMapping::Subset), None, None),
        "partition_mapping specified but neither asset has partitions"
    );
    assert_eq!(
        edge(None, None, Some(&d)),
        "a partition_mapping (e.g. AllPartitions or SpecificPartitions) is required"
    );
    assert_eq!(edge(Some(&PartitionMapping::AllPartitions), None, Some(&d)), "");
    assert_eq!(
        edge(Some(&PartitionMapping::Identity), None, Some(&d)),
        "only AllPartitions or SpecificPartitions mapping is valid"
    );
    let specific = PartitionMapping::specific_partitions(owned(&["a"])).ok().unwrap();
    assert_eq!(edge(Some(&specific), None, Some(&d)), "");
    let other = PartitionMapping::specific_partitions(owned(&["q"])).ok().unwrap();
    assert_eq!(
        edge(Some(&other), None, Some(&d)),
        "SpecificPartitions key 'q' is not a valid partition key for upstream"
    );
    assert_eq!(edge(None, Some(&d), None), "");
    assert_eq!(
        edge(Some(&PartitionMapping::Identity), Some(&d), None),
        "only AllPartitions, ForKeys, or no mapping is valid when upstream has no partitions"
    );
    let keys = PartitionMapping::for_keys(vec![PartitionKeySelector::Key(one("q"))]).ok().unwrap();
    assert_eq!(
        edge(Some(&keys), Some(&d), None),
        "ForKeys key Single { key: [\"q\"] } is not a valid downstream partition key"
    );
    let range = PartitionMapping::for_keys(vec![PartitionKeySelector::Range(
        PyPartitionKeyRange::single("a".to_string(), "q".to_string()),
    )])
    .ok()
    .unwrap();
    assert_eq!(
        edge(Some(&range), Some(&d), None),
        "Range endpoint 'q' is not a partition key"
    );
}

#[test]
fn identity_edges() {
    let ab = fixed(&["a", "b"]);
    let abc = fixed(&["c", "b", "a"]);
    assert_eq!(edge(None, Some(&ab), Some(&abc)), "");
    assert_eq!(
        edge(None, Some(&abc), Some(&fixed(&["b"]))),
        "Identity mapping requires every downstream key to exist upstream; \
         missing upstream: a, c"
    );
    assert_eq!(
        edge(None, Some(&ab), Some(&days(NEW_YEAR, None))),
        "Identity mapping requires same partition type, but downstream is Static and upstream \
         is TimeWindow"
    );
    let x = PartitionsDefinition::Dynamic { name: "x".to_string() };
    let y = PartitionsDefinition::Dynamic { name: "y".to_string() };
    assert_eq!(edge(None, Some(&x), Some(&x)), "");
    assert_eq!(
        edge(None, Some(&x), Some(&y)),
        "Identity mapping requires matching dynamic namespaces: downstream 'x' != upstream 'y'"
    );
    let p = dims(vec![("d", fixed(&["1"])), ("r", fixed(&["eu"]))]);
    let q = dims(vec![("r", fixed(&["us"])), ("d", fixed(&["1"]))]);
    assert_eq!(
        edge(None, Some(&p), Some(&q)),
        "in dimension 'r': Identity mapping requires every downstream key to exist upstream; \
         missing upstream: eu"
    );
    assert_eq!(
        edge(None, Some(&p), Some(&dims(vec![("d", fixed(&["1"]))]))),
        "Identity mapping requires matching Multi dimensions: downstream [d, r] != upstream [d]"
    );
}

#[test]
fn time_grids_on_an_edge() {
    let daily = days(NEW_YEAR, None);
    let late = days(NEW_YEAR + 3 * DAY, None);
    assert_eq!(edge(None, Some(&late), Some(&daily)), "");
    let hours = every(3_600, NEW_YEAR);
    assert_eq!(edge(None, Some(&every(7_200, NEW_YEAR + 3_600)), Some(&hours)), "");
    assert_eq!(
        edge(None, Some(&every(5_400, NEW_YEAR)), Some(&hours)),
        "Identity mapping requires the downstream grid to be a subgrid of the upstream grid: \
         downstream interval 5400s is not a multiple of upstream interval 3600s"
    );
    assert_eq!(
        edge(None, Some(&every(3_600, NEW_YEAR + 60)), Some(&hours)),
        "Identity mapping requires the downstream grid to be a subgrid of the upstream grid: \
         downstream start 2024-01-01 00:01:00 is not aligned to the upstream grid (start \
         2024-01-01 00:00:00, interval 3600s)"
    );
    assert_eq!(
        edge(None, Some(&hours), Some(&daily)),
        "Identity mapping requires matching key formats: downstream fmt '%Y-%m-%dT%H:%M:%S' != \
         upstream fmt '%Y-%m-%d'"
    );
    let six_hourly = PartitionsDefinition::TimeWindow {
        grid: TimeGrid {
            cron_schedule: Some("0 */6 * * *".to_string()),
            fmt: "%Y-%m-%dT%H:%M:%S".to_string(),
            interval_seconds: None,
            start: at(NEW_YEAR),
            end: None,
        },
    };
    assert_eq!(edge(None, Some(&six_hourly), Some(&hours)), "");
    assert_eq!(
        edge(Some(&PartitionMapping::time_window(-1)), Some(&hours), Some(&six_hourly)),
        "time_window mapping requires the downstream grid to be a subgrid of the upstream grid: \
         downstream window start 2024-01-01 01:00:00 (key '2024-01-01T01:00:00') is not on the \
         upstream grid (cron '0 */6 * * *'), so that key would never exist upstream"
    );
    let two_daily = every(2 * DAY, NEW_YEAR);
    assert!(edge(None, Some(&six_hourly), Some(&two_daily))
        .contains("is not on the upstream grid (every 172800s from 2024-01-01 00:00:00)"));
}

#[test]
fn other_edges() {
    let ab = fixed(&["a", "b"]);
    let m = PartitionMapping::time_window(-1);
    assert_eq!(
        edge(Some(&m), Some(&ab), Some(&days(NEW_YEAR, None))),
        "TimeWindow mapping requires TimeWindow partitions on downstream, but found Static"
    );
    assert_eq!(
        edge(Some(&m), Some(&days(NEW_YEAR, None)), Some(&ab)),
        "TimeWindow mapping requires TimeWindow partitions on upstream, but found Static"
    );
    let s = PartitionMapping::static_(names(&[("a", "x")]));
    assert_eq!(edge(Some(&s), Some(&ab), Some(&fixed(&["x"]))), "");
    assert_eq!(
        edge(Some(&s), Some(&fixed(&["q"])), Some(&fixed(&["x"]))),
        "Static partition mapping key 'a' is not a valid partition key for this asset"
    );
    assert_eq!(
        edge(Some(&s), Some(&ab), Some(&ab)),
        "Static mapping target 'x' is not a valid partition key for upstream"
    );
    let specific = PartitionMapping::specific_partitions(owned(&["a"])).ok().unwrap();
    assert_eq!(
        edge(Some(&specific), Some(&ab), Some(&ab)),
        "SpecificPartitions mapping is only valid when downstream is unpartitioned. Use Static, \
         Identity, or AllPartitions for partitioned-to-partitioned dependencies"
    );
    let keys = PartitionMapping::for_keys(vec![PartitionKeySelector::Key(one("a"))]).ok().unwrap();
    assert_eq!(
        edge(Some(&keys), Some(&ab), Some(&ab)),
        "ForKeys mapping is only valid when upstream is unpartitioned"
    );
    assert_eq!(edge(Some(&PartitionMapping::Subset), Some(&ab), Some(&fixed(&["a"]))), "");
    assert_eq!(
        edge(Some(&PartitionMapping::Subset), Some(&fixed(&["a"])), Some(&fixed(&["z", "a", "c"]))),
        "Subset mapping requires upstream keys to be a subset of downstream, but upstream has \
         extra keys: [\"c\", \"z\"]"
    );
    assert!(edge(Some(&PartitionMapping::Subset), Some(&ab), Some(&days(0, None)))
        .starts_with("Subset mapping requires same partition type"));
}

#[test]
fn dimension_edges() {
    let two = dims(vec![("d", fixed(&["1"])), ("r", fixed(&["eu"]))]);
    let s = fixed(&["1"]);
    let m2s = |d: &str| PartitionMapping::multi_to_single(d.to_string(), None).ok().unwrap();
    assert_eq!(edge(Some(&m2s("d")), Some(&two), Some(&s)), "");
    assert_eq!(edge(Some(&m2s("d")), Some(&s), Some(&two)), "");
    assert_eq!(
        edge(Some(&m2s("d")), Some(&two), Some(&two)),
        "MultiToSingle mapping requires exactly one side to be Multi, but both are Multi"
    );
    assert_eq!(
        edge(Some(&m2s("d")), Some(&s), Some(&s)),
        "MultiToSingle mapping requires one side to be Multi, but downstream is Static and \
         upstream is Static"
    );
    assert_eq!(
        edge(Some(&m2s("q")), Some(&two), Some(&s)),
        "MultiToSingle dimension 'q' does not exist in the downstream Multi partitions \
         (available: d, r)"
    );
    assert_eq!(
        edge(Some(&m2s("r")), Some(&two), Some(&s)),
        "in dimension 'r': Identity mapping requires every downstream key to exist upstream; \
         missing upstream: eu"
    );
    let make = |v: &[(&str, &str)]| {
        PartitionMapping::multi(
            v.iter()
                .map(|(u, d)| {
                    (u.to_string(), MultiValue::Pair(d.to_string(), PartitionMapping::Identity))
                })
                .collect(),
        )
        .ok()
        .unwrap()
    };
    assert_eq!(edge(Some(&make(&[("d", "d"), ("r", "r")])), Some(&two), Some(&two)), "");
    assert_eq!(
        edge(Some(&make(&[("d", "d")])), Some(&two), Some(&two)),
        "Multi mapping is missing upstream dimension 'r'"
    );
    assert_eq!(
        edge(Some(&make(&[("d", "d"), ("r", "r"), ("q", "d")])), Some(&two), Some(&two)),
        "Multi mapping references upstream dimension 'q' which does not exist"
    );
    assert_eq!(
        edge(Some(&make(&[("d", "q"), ("r", "r")])), Some(&two), Some(&two)),
        "Multi mapping targets downstream dimension 'q' which does not exist"
    );
    let same = dims(vec![("d", fixed(&["1"])), ("r", fixed(&["1"]))]);
    assert_eq!(
        edge(Some(&make(&[("d", "d"), ("r", "d")])), Some(&same), Some(&same)),
        "Multi mapping targets downstream dimension 'd' more than once"
    );
    let wide = dims(vec![
        ("d", fixed(&["1"])),
        ("r", fixed(&["eu"])),
        ("z", fixed(&["9"])),
    ]);
    assert_eq!(
        edge(Some(&make(&[("d", "d"), ("r", "r")])), Some(&wide), Some(&two)),
        "Multi mapping does not cover downstream dimension 'z'"
    );
    assert_eq!(
        edge(Some(&make(&[("d", "d")])), Some(&s), Some(&two)),
        "Multi mapping requires Multi partitions on downstream, but found Static"
    );
    let e = PartitionMapping::validate_edge(
        Some(&make(&[("d", "r"), ("r", "d")])),
        Some(&two),
        Some(&two),
        &no_facts(),
    );
    assert!(matches!(e, Err(MappingValidationError::InDimension { .. })));
    assert_eq!(Side::Downstream.text(), "downstream");
}

#[test]
fn nested_mappings_that_are_refused() {
    let nest = |m: PartitionMapping| {
        PartitionMapping::multi(vec![("d".to_string(), MultiValue::Mapping(m))]).err().unwrap()
    };
    assert_eq!(
        nest(PartitionMapping::Subset).message,
        "Nested Subset mappings are not allowed inside Multi"
    );
    let e = PartitionMapping::multi(vec![("d".to_string(), MultiValue::Other)]).err().unwrap();
    assert_eq!(e.kind, FaultKind::Type);
    assert_eq!(
        e.message,
        "Multi mapping values must be PartitionMapping or (str, PartitionMapping) tuple"
    );
    assert_eq!(
        PartitionMapping::multi(vec![]).err().unwrap().message,
        "Multi mapping must have at least one dimension"
    );
    let inner = PartitionMapping::multi_to_single("d".to_string(), None).ok();
    assert_eq!(
        PartitionMapping::multi_to_single("d".to_string(), inner).err().unwrap().message,
        "MultiToSingle partition_mapping cannot be MultiToSingle"
    );
}

#[test]
fn printed_mappings() {
    assert_eq!(PartitionMapping::subset().repr(), "PartitionMapping.subset()");
    assert_eq!(
        PartitionMapping::time_window(-2).repr(),
        "PartitionMapping.time_window(offset=-2)"
    );
    assert_eq!(
        PartitionMapping::multi_to_single("d".to_string(), None).ok().unwrap().repr(),
        "PartitionMapping.multi_to_single(dimension_name=\"d\", \
         partition_mapping=PartitionMapping.identity())"
    );
    assert_eq!(
        PartitionMapping::specific_partitions(owned(&["b", "a"])).ok().unwrap().repr(),
        "PartitionMapping.specific_partitions([\"a\", \"b\"])"
    );
}

#[test]
fn sameness_of_mappings() {
    let a = PartitionMapping::static_(names(&[("a", "x"), ("b", "y")]));
    let b = PartitionMapping::static_(names(&[("b", "y"), ("a", "x")]));
    assert!(a.same(&b));
    assert!(!a.same(&PartitionMapping::static_(names(&[("a", "x"), ("b", "z")]))));
    assert!(!PartitionMapping::time_window(1).same(&PartitionMapping::time_window(2)));
    let two = |x: PartitionMapping| {
        PartitionMapping::multi(vec![
            ("d".to_string(), MultiValue::Mapping(x)),
            ("r".to_string(), MultiValue::Mapping(PartitionMapping::Identity)),
        ])
        .ok()
        .unwrap()
    };
    assert!(two(a).same(&two(b)));
    assert!(!two(PartitionMapping::Identity).same(&two(PartitionMapping::AllPartitions)));
    let range = |a: &str| {
        PartitionMapping::for_keys(vec![PartitionKeySelector::Range(PyPartitionKeyRange::single(
            a.to_string(),
            "z".to_string(),
        ))])
        .ok()
        .unwrap()
    };
    assert!(range("a").same(&range("a")));
    assert!(!range("a").same(&range("b")));
    assert!(!range("a").same(&PartitionMapping::Subset));
}

#[test]
fn resolving_ranges() {
    let f = day_facts(&["2024-01-01", "2024-01-02", "2024-01-03", "2024-01-04"]);
    let r = PyPartitionKeyRange::single("2024-01-02".to_string(), "2024-01-03".to_string());
    let d = days(NEW_YEAR, Some(NEW_YEAR + 4 * DAY));
    let keys = r.resolve(&d, &f.readings).ok().unwrap();
    let shown: Vec<String> = keys.iter().map(|k| k.display()).collect();
    assert_eq!(shown, owned(&["2024-01-02", "2024-01-03"]));
    assert!(keys.iter().all(|k| r.contains(k, Some(&d), &f.readings)));
    let s = fixed(&["c", "a", "b"]);
    let r = PyPartitionKeyRange::single("c".to_string(), "a".to_string());
    assert_eq!(r.resolve(&s, &f.readings).ok().unwrap().len(), 2);
    let back = PyPartitionKeyRange::single("a".to_string(), "c".to_string());
    let e = back.resolve(&s, &f.readings).err().unwrap();
    assert_eq!(e.kind, FaultKind::Execution);
    assert_eq!(e.message, "from_key 'a' is after to_key 'c'");
    let none = PyPartitionKeyRange::single("2024-01-03".to_string(), "2024-01-04".to_string());
    let ended = days(NEW_YEAR, Some(NEW_YEAR + DAY));
    assert_eq!(
        none.resolve(&ended, &f.readings).err().unwrap().message,
        "No partition keys found in range [2024-01-03, 2024-01-04]"
    );
}

#[test]
fn resolving_ranges_of_several_dimensions() {
    let none = Readings::new();
    let d = dims(vec![("l", fixed(&["a", "b", "c"])), ("n", fixed(&["1", "2"]))]);
    let make = |v: Vec<(&str, SelectionSpec)>| {
        PyPartitionKeyRange::multi(v.into_iter().map(|(n, s)| (n.to_string(), s)).collect())
            .ok()
            .unwrap()
    };
    let ends = |a: &str, b: &str| SelectionSpec::Ends(a.to_string(), b.to_string());
    let r = make(vec![("l", ends("b", "c"))]);
    let shown: Vec<String> =
        r.resolve(&d, &none).ok().unwrap().iter().map(|k| k.display()).collect();
    assert_eq!(shown, owned(&["l=b|n=1", "l=b|n=2", "l=c|n=1", "l=c|n=2"]));
    let r = make(vec![("l", ends("b", "c")), ("n", SelectionSpec::Keys(owned(&["2"])))]);
    let keys = r.resolve(&d, &none).ok().unwrap();
    assert_eq!(keys.len(), 2);
    assert!(r.contains(&keys[0], Some(&d), &none));
    assert!(!r.contains(&multi(&[("l", &["a"]), ("n", &["2"])]), Some(&d), &none));
    assert!(!r.contains(&one("b"), Some(&d), &none));
    let r = make(vec![("n", SelectionSpec::Keys(owned(&["9"])))]);
    assert_eq!(
        r.resolve(&d, &none).err().unwrap().message,
        "'9' is not a partition key of dimension 'n'"
    );
    assert_eq!(
        r.resolve(&fixed(&["a"]), &none).err().unwrap().message,
        "PartitionKeyRange.multi() requires a Multi-partitioned asset"
    );
    let r = make(vec![("l", ends("c", "b"))]);
    assert_eq!(
        r.validate_against(&d, &none).err().unwrap(),
        "from_key 'c' is after to_key 'b' for dimension 'l'"
    );
    let sel = DimensionSelection::Keys(OrderedKeySet::new(owned(&["x"])));
    assert!(sel.contains_key("x", None, &none));
    assert!(!sel.contains_key("y", None, &none));
}

#[test]
fn range_ends_are_checked() {
    let f = day_facts(&["2024-01-01"]);
    assert_eq!(
        validate_single_dim_range(&days(0, None), "2024-01-01", "soon", Some("d"), &f.readings)
            .err()
            .unwrap(),
        "Range endpoint 'soon' does not match the partition format '%Y-%m-%d' for dimension 'd'"
    );
    let open = PartitionsDefinition::Dynamic { name: "n".to_string() };
    assert!(validate_single_dim_range(&open, "z", "a", None, &f.readings).is_ok());
}

#[test]
fn partition_contexts() {
    let f = day_facts(&["2024-01-02"]);
    let c = PartitionContext::new(one("2024-01-02"), days(NEW_YEAR, None));
    assert!(c.first_key().same(&one("2024-01-02")));
    assert_eq!(
        c.time_window(&f.readings).ok().unwrap(),
        Some((at(NEW_YEAR + DAY), at(NEW_YEAR + 2 * DAY)))
    );
    let many = PartitionContext::new_multi(vec![one("a"), one("b")], fixed(&["a", "b"]));
    assert_eq!(many.time_window(&f.readings).ok().unwrap(), None);
    assert_eq!(
        many.repr(),
        "PartitionContext(keys=[PartitionKey(\"a\"), PartitionKey(\"b\")], \
         definition=PartitionsDefinition.static_([\"a\", \"b\"]))"
    );
}

#[test]
fn keys_schemes_and_mappings_arrive_as_they_were_sent() {
    let k = || PyPartitionKey::Batch { members: vec![one("a"), multi(&[("d", &["1"])])] };
    let (variant, data) = k().reduce();
    assert_eq!(variant, "Set");
    assert!(reconstruct_partition_key(variant, data).ok().unwrap().same(&k()));
    let e = reconstruct_partition_key("Other", KeyData::Texts(vec![])).err().unwrap();
    assert_eq!(e.kind, FaultKind::Value);
    assert_eq!(e.message, "Unknown PartitionKey variant: Other");
    let d = || dims(vec![("d", fixed(&["1", "2"])), ("t", days(NEW_YEAR, None))]);
    let (variant, data) = d().reduce();
    assert!(reconstruct_partitions_definition(variant, data).ok().unwrap().same(&d()));
    let (variant, data) = fixed(&["b", "a"]).reduce();
    assert_eq!(variant, "Static");
    let s = reconstruct_partitions_definition(variant, data).ok().unwrap();
    assert!(s.same(&fixed(&["b", "a"])));
    let m = || {
        PartitionMapping::multi(vec![
            ("u".to_string(), MultiValue::Pair("d".to_string(), PartitionMapping::Identity)),
            ("v".to_string(), MultiValue::Mapping(PartitionMapping::time_window(-1))),
        ])
        .ok()
        .unwrap()
    };
    let (variant, data) = m().reduce();
    assert_eq!(variant, "Multi");
    assert!(reconstruct_partition_mapping(variant, data).ok().unwrap().same(&m()));
    let others = || {
        vec![
            PartitionMapping::Identity,
            PartitionMapping::AllPartitions,
            PartitionMapping::Subset,
            PartitionMapping::static_(names(&[("a", "x")])),
            PartitionMapping::time_window(3),
            PartitionMapping::multi_to_single("d".to_string(), None).ok().unwrap(),
            PartitionMapping::specific_partitions(owned(&["b", "a"])).ok().unwrap(),
            PartitionMapping::for_keys(vec![PartitionKeySelector::Key(one("k"))]).ok().unwrap(),
        ]
    };
    for (sent, same) in others().into_iter().zip(others()) {
        let (variant, data) = sent.reduce();
        assert!(reconstruct_partition_mapping(variant, data).ok().unwrap().same(&same));
    }
    let e = reconstruct_partition_mapping("Other", MappingData::Nothing).err().unwrap();
    assert_eq!(e.message, "Unknown PartitionMapping variant: Other");
    let e = reconstruct_partition_mapping("Multi", MappingData::Dims(vec![])).err().unwrap();
    assert_eq!(e.message, "Multi mapping must have at least one dimension");
}

#[test]
fn copies_are_the_same() {
    let range = PyPartitionKeyRange::multi(vec![
        ("d".to_string(), SelectionSpec::Ends("a".to_string(), "b".to_string())),
        ("k".to_string(), SelectionSpec::Keys(owned(&["1", "2"]))),
    ])
    .ok()
    .unwrap();
    assert!(range.same(&range.copy()));
    let m = PartitionMapping::multi(vec![
        (
            "u".to_string(),
            MultiValue::Pair("d".to_string(), PartitionMapping::static_(names(&[("a", "x")]))),
        ),
        (
            "v".to_string(),
            MultiValue::Mapping(
                PartitionMapping::multi_to_single("q".to_string(), None).ok().unwrap(),
            ),
        ),
    ])
    .ok()
    .unwrap();
    assert!(m.same(&m.copy()));
    let f = PartitionMapping::for_keys(vec![
        PartitionKeySelector::Range(range),
        PartitionKeySelector::Key(one("k")),
    ])
    .ok()
    .unwrap();
    assert!(f.same(&f.copy()));
    assert!(!f.same(&m.copy()));
}
