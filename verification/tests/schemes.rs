use chrono::{NaiveDate, NaiveDateTime, Timelike};
use rivers::errors::{Fault, FaultKind};
use rivers::moment::{
    cron_ticks_before, format_moment, local_now, moment_text, next_cron_tick, CronFault, Moment,
    MAX_SECS,
};
use rivers::partitions::definition::PartitionsDefinition;
use rivers::partitions::facts::{Shift, Shifts};
use rivers::partitions::grid::{Interval, TimeGrid};
use rivers::partitions::grid_compat::cron_grid_contains;
use rivers::partitions::key::PyPartitionKey;
use rivers::partitions::key_set::OrderedKeySet;
use rivers::partitions::readings::Readings;

/// Midnight of the first of January 2024.
const NEW_YEAR: i64 = 1_704_067_200;
const DAY: i64 = 86_400;

fn owned(v: &[&str]) -> Vec<String> {
    v.iter().map(|s| s.to_string()).collect()
}

fn at(secs: i64) -> Moment {
    Moment { secs, nanos: 0 }
}

fn read(key: &str, fmt: &str) -> Result<Moment, String> {
    let parsed = NaiveDateTime::parse_from_str(key, fmt)
        .or_else(|_| {
            NaiveDate::parse_from_str(key, fmt).map(|d| d.and_hms_opt(0, 0, 0).unwrap())
        })
        .map_err(|e| e.to_string())?;
    Ok(Moment { secs: parsed.and_utc().timestamp(), nanos: parsed.nanosecond() })
}

fn readings(keys: &[String], fmt: &str) -> Readings {
    let mut r = Readings::new();
    for k in keys {
        r.note(k.clone(), fmt.to_string(), read(k, fmt));
    }
    r
}

fn daily_grid(start: i64, end: Option<i64>) -> TimeGrid {
    TimeGrid {
        cron_schedule: Some("0 0 * * *".to_string()),
        interval_seconds: None,
        start: at(start),
        end: end.map(at),
        fmt: "%Y-%m-%d".to_string(),
    }
}

fn seconds(n: i64) -> Interval {
    Interval { ns: n as i128 * 1_000_000_000, finite: true, text: n.to_string() }
}

fn interval_grid(secs: i64, start: i64, end: Option<i64>) -> TimeGrid {
    TimeGrid {
        cron_schedule: None,
        interval_seconds: Some(seconds(secs)),
        start: at(start),
        end: end.map(at),
        fmt: "%Y-%m-%dT%H:%M:%S".to_string(),
    }
}

fn windows(grid: TimeGrid) -> PartitionsDefinition {
    PartitionsDefinition::TimeWindow { grid }
}

fn fixed(v: &[&str]) -> PartitionsDefinition {
    PartitionsDefinition::Static { keys: OrderedKeySet::new(owned(v)) }
}

fn single(v: &[&str]) -> PyPartitionKey {
    PyPartitionKey::Single { key: owned(v) }
}

fn said(r: Result<PartitionsDefinition, Fault>) -> String {
    let e = r.err().unwrap();
    assert_eq!(e.kind, FaultKind::Definition);
    e.message
}

fn texts_of(keys: Vec<PyPartitionKey>) -> Vec<String> {
    keys.iter().map(|k| k.display()).collect()
}

#[test]
fn static_keys_are_listed_once_in_order() {
    let d = PartitionsDefinition::static_(owned(&["b", "a", "b"]), &Readings::new()).ok().unwrap();
    assert_eq!(texts_of(d.get_partition_keys().ok().unwrap()), owned(&["b", "a"]));
    assert_eq!(d.enumerate_single_dim_keys().ok().unwrap(), owned(&["b", "a"]));
    assert_eq!(d.partition_count(), 2);
    assert_eq!(d.repr(), "PartitionsDefinition.static_([\"b\", \"a\"])");
    assert_eq!(d.variant_name(), "Static");
    assert!(d.static_keys().is_some());
}

#[test]
fn faulty_static_keys() {
    let none = Readings::new();
    assert_eq!(
        said(PartitionsDefinition::static_(vec![], &none)),
        "Static partitions must have at least one key"
    );
    assert_eq!(
        said(PartitionsDefinition::static_(owned(&["a", ""]), &none)),
        "static partition keys must not be empty"
    );
    assert_eq!(
        said(PartitionsDefinition::static_(owned(&["a=b|c"]), &none)),
        "partition key 'a=b|c' contains reserved character '|' (used by the canonical display form)"
    );
}

#[test]
fn daily_keys() {
    let grid = daily_grid(NEW_YEAR, Some(NEW_YEAR + 3 * DAY));
    let keys = grid.probe_keys().ok().unwrap();
    assert_eq!(keys, owned(&["2024-01-01", "2024-01-02", "2024-01-03"]));
    let r = readings(&keys, "%Y-%m-%d");
    let d = PartitionsDefinition::daily(at(NEW_YEAR), Some(at(NEW_YEAR + 3 * DAY)), None, &r)
        .ok()
        .unwrap();
    assert_eq!(
        texts_of(d.get_partition_keys().ok().unwrap()),
        owned(&["2024-01-01", "2024-01-02", "2024-01-03"])
    );
    assert_eq!(d.partition_count(), 3);
    assert_eq!(
        d.repr(),
        "PartitionsDefinition.time_window(cron=\"0 0 * * *\", start=2024-01-01 00:00:00, \
         fmt=\"%Y-%m-%d\", end=2024-01-04 00:00:00)"
    );
    assert!(d.validate_partition_key(&single(&["2024-01-02"]), &r).ok().unwrap());
    assert!(!d.validate_partition_key(&single(&["2024-01-04"]), &r).ok().unwrap());
    assert!(!d.validate_partition_key(&single(&[]), &r).ok().unwrap());
    assert_eq!(d.single_dim_key_index("2024-01-03", &r).ok().unwrap(), Some(2));
    assert_eq!(d.single_dim_key_index("2024-01-04", &r).ok().unwrap(), None);
    let w = d.compute_time_window("2024-01-02", &r).ok().unwrap().unwrap();
    assert_eq!(w, (at(NEW_YEAR + DAY), at(NEW_YEAR + 2 * DAY)));
}

#[test]
fn hourly_keys() {
    let fmt = "%Y-%m-%dT%H:00";
    let r = readings(&owned(&["2024-01-01T00:00", "2024-01-01T01:00"]), "%Y-%m-%dT%H:%M");
    let mut same = Readings::new();
    for e in r.entries {
        same.note(e.key, fmt.to_string(), e.at);
    }
    let d = PartitionsDefinition::hourly(at(NEW_YEAR), Some(at(NEW_YEAR + 7_200)), None, &same)
        .ok()
        .unwrap();
    assert_eq!(
        texts_of(d.get_partition_keys().ok().unwrap()),
        owned(&["2024-01-01T00:00", "2024-01-01T01:00"])
    );
}

#[test]
fn interval_keys_and_their_windows() {
    let d = windows(interval_grid(90, NEW_YEAR, Some(NEW_YEAR + 300)));
    let want = owned(&[
        "2024-01-01T00:00:00",
        "2024-01-01T00:01:30",
        "2024-01-01T00:03:00",
        "2024-01-01T00:04:30",
    ]);
    assert_eq!(texts_of(d.get_partition_keys().ok().unwrap()), want);
    assert_eq!(d.partition_count(), 4);
    let r = readings(&want, "%Y-%m-%dT%H:%M:%S");
    assert_eq!(d.single_dim_key_index(&want[3], &r).ok().unwrap(), Some(3));
    assert_eq!(
        d.compute_time_window(&want[1], &r).ok().unwrap().unwrap(),
        (at(NEW_YEAR + 90), at(NEW_YEAR + 180))
    );
    assert!(d.validate_partition_key(&single(&[&want[2]]), &r).ok().unwrap());
    assert_eq!(
        d.repr(),
        "PartitionsDefinition.time_window(interval=90s, start=2024-01-01 00:00:00, \
         fmt=\"%Y-%m-%dT%H:%M:%S\", end=2024-01-01 00:05:00)"
    );
    assert_eq!(d.time_grid().unwrap().start, at(NEW_YEAR));
}

#[test]
fn a_key_off_the_grid_or_unreadable_is_not_valid() {
    let d = windows(interval_grid(90, NEW_YEAR, Some(NEW_YEAR + 300)));
    let fmt = "%Y-%m-%dT%H:%M:%S";
    let r = readings(&owned(&["2024-01-01T00:01:00", "nonsense"]), fmt);
    assert!(!d.validate_partition_key(&single(&["2024-01-01T00:01:00"]), &r).ok().unwrap());
    assert!(!d.validate_partition_key(&single(&["nonsense"]), &r).ok().unwrap());
    assert_eq!(d.single_dim_key_index("2024-01-01T00:01:00", &r).ok().unwrap(), None);
    let e = d.compute_time_window("nonsense", &r).err().unwrap();
    assert!(e.message.starts_with(
        "Cannot parse partition key 'nonsense' with format '%Y-%m-%dT%H:%M:%S': "
    ));
}

#[test]
fn faulty_time_windows() {
    let none = Readings::new();
    let make = |cron: Option<&str>, interval: Option<Interval>, start: Moment| {
        PartitionsDefinition::time_window(
            start,
            cron.map(|c| c.to_string()),
            interval,
            Some(at(NEW_YEAR + DAY)),
            None,
            &none,
        )
    };
    assert_eq!(
        said(make(None, None, at(NEW_YEAR))),
        "time_window requires either cron_schedule or interval_seconds"
    );
    assert_eq!(
        said(make(Some("0 0 * * *"), Some(seconds(60)), at(NEW_YEAR))),
        "time_window accepts cron_schedule or interval_seconds, not both"
    );
    assert_eq!(
        said(make(None, Some(seconds(0)), at(NEW_YEAR))),
        "interval_seconds must be positive and at least 1 nanosecond, got 0"
    );
    let endless = Interval { ns: 0, finite: false, text: "inf".to_string() };
    assert_eq!(
        said(make(None, Some(endless), at(NEW_YEAR))),
        "interval_seconds must be positive and at least 1 nanosecond, got inf"
    );
    assert_eq!(
        said(make(Some("0 0 * * *"), None, Moment { secs: NEW_YEAR, nanos: 5_000_000 })),
        "cron-gridded time windows require a start on a whole second, got \
         2024-01-01 00:00:00.005"
    );
    assert!(said(make(Some("rubbish"), None, at(NEW_YEAR)))
        .starts_with("Invalid cron expression 'rubbish': "));
}

#[test]
fn a_format_must_be_as_fine_as_the_grid() {
    let grid = |fmt: &str| TimeGrid {
        fmt: fmt.to_string(),
        ..interval_grid(3_600, NEW_YEAR, Some(NEW_YEAR + 7_200))
    };
    let make = |fmt: &str| {
        let r = readings(&grid(fmt).probe_keys().ok().unwrap(), fmt);
        PartitionsDefinition::time_window(
            at(NEW_YEAR),
            None,
            Some(seconds(3_600)),
            Some(at(NEW_YEAR + 7_200)),
            Some(fmt.to_string()),
            &r,
        )
    };
    assert_eq!(
        said(make("%Y-%m-%d")),
        "fmt '%Y-%m-%d' cannot represent the partition grid: window start \
         2024-01-01 01:00:00 formats to '2024-01-01', which parses back to \
         2024-01-01 00:00:00; use a format at least as fine as the grid"
    );
    assert!(said(make("%Y")).starts_with(
        "fmt '%Y' cannot represent the partition grid: window start 2024-01-01 00:00:00 \
         formats to '2024', which does not parse back: "
    ));
    assert_eq!(
        said(make("%Y=%m-%dT%H:%M")),
        "fmt '%Y=%m-%dT%H:%M' produces keys containing reserved character '=' (used by the \
         canonical display form): '2024=01-01T00:00'"
    );
    assert!(make("%Y-%m-%dT%H:%M").is_ok());
}

#[test]
fn faulty_dimensions_and_names() {
    let none = Readings::new();
    let multi = |dims: Vec<(&str, PartitionsDefinition)>| {
        PartitionsDefinition::multi(
            dims.into_iter().map(|(n, d)| (n.to_string(), d)).collect(),
            &none,
        )
    };
    assert_eq!(said(multi(vec![])), "Multi partitions must have at least one dimension");
    assert_eq!(
        said(multi(vec![("a", fixed(&["1"])), ("a", fixed(&["2"]))])),
        "Multi partitions: duplicate dimension name 'a'"
    );
    let inner = PartitionsDefinition::Multi {
        dimensions: vec![("x".to_string(), fixed(&["1"]))],
    };
    assert_eq!(
        said(multi(vec![("a", inner)])),
        "Multi partitions cannot contain nested Multi dimensions"
    );
    assert_eq!(said(multi(vec![("", fixed(&["1"]))])), "Multi dimension names cannot be empty");
    assert_eq!(
        said(multi(vec![("a,b", fixed(&["1"]))])),
        "dimension name 'a,b' contains reserved character ',' (used by the canonical display form)"
    );
    assert_eq!(
        said(multi(vec![("a", fixed(&[""]))])),
        "static partition keys must not be empty"
    );
    assert_eq!(
        said(PartitionsDefinition::dynamic(String::new(), &none)),
        "Dynamic partition definition name cannot be empty"
    );
}

fn grid_of_two() -> PartitionsDefinition {
    PartitionsDefinition::multi(
        vec![
            ("letter".to_string(), fixed(&["a", "b"])),
            ("digit".to_string(), fixed(&["1", "2", "3"])),
        ],
        &Readings::new(),
    )
    .ok()
    .unwrap()
}

#[test]
fn keys_of_several_dimensions() {
    let d = grid_of_two();
    assert_eq!(
        texts_of(d.get_partition_keys().ok().unwrap()),
        owned(&[
            "digit=1|letter=a",
            "digit=2|letter=a",
            "digit=3|letter=a",
            "digit=1|letter=b",
            "digit=2|letter=b",
            "digit=3|letter=b",
        ])
    );
    assert_eq!(d.partition_count(), 6);
    assert_eq!(
        d.repr(),
        "PartitionsDefinition.multi({\"letter\": PartitionsDefinition.static_([\"a\", \"b\"]), \
         \"digit\": PartitionsDefinition.static_([\"1\", \"2\", \"3\"])})"
    );
    assert_eq!(
        d.enumerate_single_dim_keys().err().unwrap().message,
        "enumerate_single_dim_keys called on a non-single-dimension definition"
    );
    assert!(d.dimension_def("digit").is_some());
    assert!(d.dimension_def("other").is_none());
}

#[test]
fn a_window_is_a_page_of_the_listing() {
    let d = grid_of_two();
    let all = texts_of(d.get_partition_keys().ok().unwrap());
    let page = texts_of(d.get_partition_keys_window(2, 3).ok().unwrap());
    assert_eq!(page, all[2..5].to_vec());
    assert_eq!(texts_of(d.get_partition_keys_window(5, 9).ok().unwrap()), all[5..].to_vec());
    assert!(d.get_partition_keys_window(6, 1).ok().unwrap().is_empty());
    let t = windows(daily_grid(NEW_YEAR, Some(NEW_YEAR + 5 * DAY)));
    assert_eq!(
        texts_of(t.get_partition_keys_window(1, 2).ok().unwrap()),
        owned(&["2024-01-02", "2024-01-03"])
    );
    let i = windows(interval_grid(60, NEW_YEAR, Some(NEW_YEAR + 300)));
    assert_eq!(
        texts_of(i.get_partition_keys_window(4, 2).ok().unwrap()),
        owned(&["2024-01-01T00:04:00"])
    );
}

#[test]
fn searching_counts_every_match_and_pages() {
    let d = fixed(&["alpha", "beta", "gamma", "delta"]);
    let (page, total) = d.get_partition_keys_filtered("ta", 1, 5).ok().unwrap();
    assert_eq!(page, owned(&["delta"]));
    assert_eq!(total, 2);
    let (page, total) = d.get_partition_keys_filtered("", 0, 1).ok().unwrap();
    assert_eq!(page, owned(&["alpha"]));
    assert_eq!(total, 4);
    let (page, total) = grid_of_two().get_partition_keys_filtered("a", 0, 9).ok().unwrap();
    assert!(page.is_empty());
    assert_eq!(total, 0);
    let t = windows(daily_grid(NEW_YEAR, Some(NEW_YEAR + 31 * DAY)));
    let (page, total) = t.get_partition_keys_filtered("-1", 0, 2).ok().unwrap();
    assert_eq!(page, owned(&["2024-01-10", "2024-01-11"]));
    assert_eq!(total, 10);
}

#[test]
fn a_cap_ends_every_time_grid() {
    let t = windows(daily_grid(NEW_YEAR, None));
    let capped = t.get_partition_keys_capped(at(NEW_YEAR + 2 * DAY)).ok().unwrap();
    assert_eq!(texts_of(capped), owned(&["2024-01-01", "2024-01-02"]));
    let ended = windows(daily_grid(NEW_YEAR, Some(NEW_YEAR + DAY)));
    assert_eq!(
        ended.enumerate_single_dim_keys_capped(at(NEW_YEAR + 2 * DAY)).ok().unwrap(),
        owned(&["2024-01-01"])
    );
    assert_eq!(
        fixed(&["x"]).enumerate_single_dim_keys_capped(at(0)).ok().unwrap(),
        owned(&["x"])
    );
    let both = PartitionsDefinition::Multi {
        dimensions: vec![("d".to_string(), t), ("s".to_string(), fixed(&["x"]))],
    };
    assert_eq!(
        texts_of(both.get_partition_keys_capped(at(NEW_YEAR + DAY)).ok().unwrap()),
        owned(&["d=2024-01-01|s=x"])
    );
}

#[test]
fn an_open_grid_ends_now() {
    let start = local_now().secs / DAY * DAY - 2 * DAY;
    let t = windows(daily_grid(start, None));
    let n = t.partition_count();
    assert!(n == 3 || n == 4);
    assert_eq!(t.partition_count_at(at(start + 10 * DAY)), 10);
    let keys = t.get_partition_keys_at(at(start + 2 * DAY)).ok().unwrap();
    assert_eq!(keys.len(), 2);
}

#[test]
fn dynamic_keys_are_not_listed_but_any_text_is_valid() {
    let none = Readings::new();
    let d = PartitionsDefinition::dynamic("users".to_string(), &none).ok().unwrap();
    let e = d.get_partition_keys().err().unwrap();
    assert_eq!(e.kind, FaultKind::NotImplemented);
    assert_eq!(e.message, "Cannot enumerate dynamic partition keys");
    assert_eq!(d.partition_count(), 0);
    assert!(d.validate_partition_key(&single(&["anyone"]), &none).ok().unwrap());
    assert!(!d.validate_partition_key(&single(&[]), &none).ok().unwrap());
    assert_eq!(d.repr(), "PartitionsDefinition.dynamic(\"users\")");
    assert!(d.get_partition_keys_window(0, 1).is_err());
}

#[test]
fn validity_by_shape() {
    let none = Readings::new();
    let s = fixed(&["a", "b"]);
    assert!(s.validate_partition_key(&single(&["a", "b"]), &none).ok().unwrap());
    assert!(!s.validate_partition_key(&single(&["a", "z"]), &none).ok().unwrap());
    let m = grid_of_two();
    let key = |dims: Vec<(&str, &[&str])>| {
        PyPartitionKey::multi(dims.into_iter().map(|(n, v)| (n.to_string(), owned(v))).collect())
            .ok()
            .unwrap()
    };
    let good = key(vec![("letter", &["a"]), ("digit", &["1", "3"])]);
    assert!(m.validate_partition_key(&good, &none).ok().unwrap());
    let unknown = key(vec![("letter", &["a"]), ("digit", &["9"])]);
    assert!(!m.validate_partition_key(&unknown, &none).ok().unwrap());
    let fewer = key(vec![("letter", &["a"])]);
    assert!(!m.validate_partition_key(&fewer, &none).ok().unwrap());
    let other = key(vec![("letter", &["a"]), ("else", &["1"])]);
    assert!(!m.validate_partition_key(&other, &none).ok().unwrap());
    assert!(!m.validate_partition_key(&single(&["a"]), &none).ok().unwrap());
    let batch = PyPartitionKey::Batch { members: vec![single(&["a"]), single(&["b"])] };
    assert!(s.validate_partition_key(&batch, &none).ok().unwrap());
    assert!(!m.validate_partition_key(&batch, &none).ok().unwrap());
    let empty = PyPartitionKey::Batch { members: vec![] };
    assert!(!s.validate_partition_key(&empty, &none).ok().unwrap());
}

#[test]
fn intersections() {
    let a = fixed(&["a", "b", "c"]);
    let b = fixed(&["c", "b", "d"]);
    let m = a.intersect(&b).ok().unwrap();
    assert_eq!(m.enumerate_single_dim_keys().ok().unwrap(), owned(&["c", "b"]));
    assert_eq!(
        a.intersect(&fixed(&["z"])).err().unwrap(),
        "disjoint Static keys ([\"a\", \"b\", \"c\"] vs [\"z\"])"
    );
    assert_eq!(
        a.intersect(&grid_of_two()).err().unwrap(),
        "different partition kinds (Static vs Multi)"
    );
    let t = windows(daily_grid(NEW_YEAR, Some(NEW_YEAR + 5 * DAY)));
    let u = windows(daily_grid(NEW_YEAR + 3 * DAY, None));
    let m = t.intersect(&u).ok().unwrap();
    assert_eq!(
        m.enumerate_single_dim_keys().ok().unwrap(),
        owned(&["2024-01-04", "2024-01-05"])
    );
    let late = windows(daily_grid(NEW_YEAR + 9 * DAY, None));
    assert_eq!(
        t.intersect(&late).err().unwrap(),
        "TimeWindow date ranges don't overlap ([2024-01-01 00:00:00, 2024-01-06 00:00:00) vs \
         [2024-01-10 00:00:00, \u{221e}))"
    );
    let i = windows(interval_grid(60, NEW_YEAR, None));
    assert_eq!(
        t.intersect(&i).err().unwrap(),
        "TimeWindow cadence mismatch (cron='0 0 * * *' vs interval_seconds=60)"
    );
    let f = windows(TimeGrid {
        fmt: "%F".to_string(),
        ..daily_grid(NEW_YEAR, None)
    });
    assert_eq!(
        t.intersect(&f).err().unwrap(),
        "TimeWindow fmt mismatch ('%Y-%m-%d' vs '%F')"
    );
    let x = PartitionsDefinition::Dynamic { name: "x".to_string() };
    let y = PartitionsDefinition::Dynamic { name: "y".to_string() };
    assert!(x.intersect(&x).ok().unwrap().same(&x));
    assert_eq!(
        x.intersect(&y).err().unwrap(),
        "Dynamic namespace mismatch ('x' vs 'y')"
    );
    let g = grid_of_two();
    assert!(g.intersect(&g).ok().unwrap().same(&g));
    let h = PartitionsDefinition::Multi {
        dimensions: vec![("letter".to_string(), fixed(&["a"]))],
    };
    assert_eq!(
        g.intersect(&h).err().unwrap(),
        "Multi dimension name mismatch ([\"letter\", \"digit\"] vs [\"letter\"])"
    );
    let k = PartitionsDefinition::Multi {
        dimensions: vec![
            ("digit".to_string(), fixed(&["9"])),
            ("letter".to_string(), fixed(&["a"])),
        ],
    };
    assert_eq!(
        g.intersect(&k).err().unwrap(),
        "Multi dimension 'digit': disjoint Static keys ([\"1\", \"2\", \"3\"] vs [\"9\"])"
    );
}

#[test]
fn sameness_of_schemes() {
    assert!(grid_of_two().same(&grid_of_two()));
    assert!(!grid_of_two().same(&fixed(&["a"])));
    assert!(!fixed(&["a", "b"]).same(&fixed(&["b", "a"])));
    assert!(grid_of_two().same(&grid_of_two().copy()));
    let t = windows(daily_grid(NEW_YEAR, None));
    assert!(t.same(&t.copy()));
    assert!(!t.same(&windows(daily_grid(NEW_YEAR, Some(NEW_YEAR)))));
    assert!(t.same_variant(&windows(interval_grid(1, 0, None))));
    assert!(!t.same_variant(&grid_of_two()));
}

#[test]
fn a_shifted_key_comes_from_the_table() {
    let grid = daily_grid(NEW_YEAR, None);
    let mut shifts = Shifts::new();
    shifts.entries.push(Shift {
        grid: daily_grid(NEW_YEAR, None),
        key: "2024-01-02".to_string(),
        offset: -1,
        to: Ok("2024-01-01".to_string()),
    });
    shifts.entries.push(Shift {
        grid: daily_grid(NEW_YEAR, None),
        key: "2024-01-01".to_string(),
        offset: -1,
        to: Err("before the start".to_string()),
    });
    let d = windows(grid);
    assert_eq!(d.shift_time_key("2024-01-02", -1, &shifts).ok().unwrap(), "2024-01-01");
    assert_eq!(
        d.shift_time_key("2024-01-01", -1, &shifts).err().unwrap().message,
        "before the start"
    );
    assert_eq!(
        fixed(&["a"]).shift_time_key("a", 1, &shifts).err().unwrap().message,
        "time_window mapping requires a TimeWindow partition definition"
    );
}

#[test]
fn moments_format_and_print() {
    assert_eq!(format_moment(at(NEW_YEAR), "%d/%m/%Y").unwrap(), "01/01/2024");
    assert!(format_moment(at(NEW_YEAR), "%Q").is_none());
    assert_eq!(moment_text(Moment { secs: -1, nanos: 500_000_000 }), "1969-12-31 23:59:59.500");
    let now = local_now();
    assert!(now.secs > NEW_YEAR);
    assert!(now.nanos < 2_000_000_000);
}

#[test]
fn moments_step() {
    assert_eq!(at(5).step(1_500_000_000).unwrap(), Moment { secs: 6, nanos: 500_000_000 });
    assert_eq!(at(5).step(-5_000_000_001).unwrap(), Moment { secs: -1, nanos: 999_999_999 });
    assert!(at(MAX_SECS).step(1_000_000_000).is_none());
    assert!(at(1).before(at(2)));
    assert_eq!(at(1).later(at(2)), at(2));
    assert_eq!(at(1).earlier(at(2)), at(1));
}

#[test]
fn schedules() {
    assert_eq!(next_cron_tick("0 0 * * *", at(NEW_YEAR)).ok().unwrap(), at(NEW_YEAR + DAY));
    assert!(matches!(next_cron_tick("rubbish", at(0)), Err(CronFault::Schedule(_))));
    let ticks = cron_ticks_before("0 */6 * * *", at(NEW_YEAR), at(NEW_YEAR + DAY), 9).ok().unwrap();
    let want: Vec<Moment> = (0..4).map(|i| at(NEW_YEAR + i * 21_600)).collect();
    assert_eq!(ticks, want);
    let two = cron_ticks_before("0 */6 * * *", at(NEW_YEAR), at(NEW_YEAR + DAY), 2).ok().unwrap();
    assert_eq!(two, want[..2].to_vec());
    assert!(cron_ticks_before("rubbish", at(0), at(1), 1).is_err());
}

#[test]
fn a_schedule_contains_its_ticks_alone() {
    assert!(cron_grid_contains("0 0 * * *", at(NEW_YEAR)).ok().unwrap());
    assert!(!cron_grid_contains("0 0 * * *", at(NEW_YEAR + 60)).ok().unwrap());
    let off = Moment { secs: NEW_YEAR, nanos: 1 };
    assert!(!cron_grid_contains("0 0 * * *", off).ok().unwrap());
    let e = cron_grid_contains("rubbish", at(0)).err().unwrap();
    assert!(e.message.starts_with("Invalid cron expression 'rubbish': "));
}

#[test]
fn grids_that_fit_and_grids_that_do_not() {
    let up = interval_grid(3_600, NEW_YEAR, None);
    let down = interval_grid(7_200, NEW_YEAR + 3_600, None);
    assert!(down.resolves_on("Identity", &up).is_ok());
    let off = interval_grid(5_400, NEW_YEAR, None);
    assert!(off.resolves_on("Identity", &up).is_err());
}
