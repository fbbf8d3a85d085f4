use chrono::{NaiveDate, NaiveDateTime, Timelike};
use rivers::moment::Moment;
use rivers::partitions::definition::PartitionsDefinition;
use rivers::partitions::facts::{KeyFacts, Shift, Shifts};
use rivers::partitions::grid::{Interval, TimeGrid};
use rivers::partitions::key::PyPartitionKey;
use rivers::partitions::key_range::PyPartitionKeyRange;
use rivers::partitions::key_set::OrderedKeySet;
use rivers::partitions::mapping::{PartitionMapping, UpstreamKeyResolution};
use rivers::partitions::readings::Readings;

/// Midnight of the first of January 2024.
const NEW_YEAR: i64 = 1_704_067_200;
const DAY: i64 = 86_400;
const STAMP: &str = "%Y-%m-%dT%H:%M:%S";

fn owned(v: &[&str]) -> Vec<String> {
    v.iter().map(|s| s.to_string()).collect()
}

fn at(secs: i64) -> Moment {
    Moment { secs, nanos: 0 }
}

fn read(key: &str, fmt: &str) -> Result<Moment, String> {
    let parsed = NaiveDateTime::parse_from_str(key, fmt)
        .or_else(|_| {
            NaiveDate::parse_from_str(key, fmt).map(|d| d.and_hms_opt(0, 0, 0).unwrap())
        })
        .map_err(|e| e.to_string())?;
    Ok(Moment { secs: parsed.and_utc().timestamp(), nanos: parsed.nanosecond() })
}

fn look_up(asks: &[(String, String)]) -> Readings {
    let mut r = Readings::new();
    for (k, f) in asks {
        r.note(k.clone(), f.clone(), read(k, f));
    }
    r
}

fn cron(expr: &str, start: i64, end: i64) -> PartitionsDefinition {
    PartitionsDefinition::TimeWindow {
        grid: TimeGrid {
            cron_schedule: Some(expr.to_string()),
            interval_seconds: None,
            start: at(start),
            end: Some(at(end)),
            fmt: STAMP.to_string(),
        },
    }
}

fn every(text: &str, ns: i128, start: i64, end: i64) -> PartitionsDefinition {
    PartitionsDefinition::TimeWindow {
        grid: TimeGrid {
            cron_schedule: None,
            interval_seconds: Some(Interval { ns, finite: text != "NaN", text: text.to_string() }),
            start: at(start),
            end: Some(at(end)),
            fmt: STAMP.to_string(),
        },
    }
}

fn fixed(v: &[&str]) -> PartitionsDefinition {
    PartitionsDefinition::Static { keys: OrderedKeySet::new(owned(v)) }
}

fn dims(v: Vec<(&str, PartitionsDefinition)>) -> PartitionsDefinition {
    PartitionsDefinition::Multi {
        dimensions: v.into_iter().map(|(n, d)| (n.to_string(), d)).collect(),
    }
}

fn keys(d: &PartitionsDefinition) -> Vec<String> {
    d.enumerate_single_dim_keys().ok().unwrap()
}

fn shown(d: &PartitionsDefinition) -> Vec<String> {
    d.get_partition_keys().ok().unwrap().iter().map(|k| k.display()).collect()
}

fn accepts(d: &PartitionsDefinition, key: &PyPartitionKey) -> bool {
    let r = look_up(&d.keys_to_read(key));
    d.validate_partition_key(key, &r).ok().unwrap()
}

fn one(k: &str) -> PyPartitionKey {
    PyPartitionKey::Single { key: owned(&[k]) }
}

#[test]
fn listed_keys_of_a_schedule_are_valid_and_distinct() {
    let d = cron("30 */5 * * *", NEW_YEAR + 7, NEW_YEAR + 3 * DAY);
    let ks = keys(&d);
    assert_eq!(ks.len(), 15);
    assert_eq!(ks[0], "2024-01-01T00:30:00");
    for (i, k) in ks.iter().enumerate() {
        assert!(accepts(&d, &one(k)));
        assert!(!ks[..i].contains(k));
        let r = look_up(&d.keys_to_read(&one(k)));
        assert_eq!(d.single_dim_key_index(k, &r).ok().unwrap(), Some(i));
    }
    for other in ["2024-01-01T00:31:00", "2023-12-31T20:30:00", "2024-01-04T00:30:00", "x"] {
        assert!(!accepts(&d, &one(other)));
        let r = look_up(&d.keys_to_read(&one(other)));
        assert_eq!(d.single_dim_key_index(other, &r).ok().unwrap(), None);
    }
    assert!(!accepts(&d, &PyPartitionKey::Single { key: vec![] }));
    let two = PyPartitionKey::Single { key: vec![ks[3].clone(), ks[0].clone()] };
    assert!(accepts(&d, &two));
}

#[test]
fn a_schedule_of_every_second_lists_every_other() {
    let d = cron("* * * * * *", NEW_YEAR, NEW_YEAR + 2 * DAY);
    let ks = d.get_partition_keys_window(0, 3).ok().unwrap();
    let ks: Vec<String> = ks.iter().map(|k| k.display()).collect();
    assert_eq!(
        ks,
        owned(&["2024-01-01T00:00:00", "2024-01-01T00:00:02", "2024-01-01T00:00:04"])
    );
    assert!(accepts(&d, &one("2024-01-02T12:00:00")));
    assert!(accepts(&d, &one("2024-01-02T12:00:01")));
    assert!(!accepts(&d, &one("2024-01-01T00:00:01")));
}

#[test]
fn keys_of_several_dimensions_are_distinct_and_valid() {
    let d = dims(vec![
        ("t", cron("0 0 * * *", NEW_YEAR, NEW_YEAR + 2 * DAY)),
        ("r", fixed(&["eu", "us"])),
    ]);
    let all = d.get_partition_keys().ok().unwrap();
    assert_eq!(all.len(), 4);
    for (i, k) in all.iter().enumerate() {
        assert!(accepts(&d, k));
        assert!(all[..i].iter().all(|o| !o.same(k)));
        match k {
            PyPartitionKey::Multi { keys } => {
                assert_eq!(keys.entries.len(), 2);
                assert!(keys.entries.iter().all(|e| e.1.len() == 1));
            }
            _ => panic!("one value for each dimension"),
        }
    }
}

#[test]
fn a_cap_keeps_the_first_keys() {
    for d in [
        cron("0 */6 * * *", NEW_YEAR, NEW_YEAR + 2 * DAY),
        every("3600", 3_600_000_000_000, NEW_YEAR, NEW_YEAR + 2 * DAY),
    ] {
        let all = keys(&d);
        let some = d.enumerate_single_dim_keys_capped(at(NEW_YEAR + DAY)).ok().unwrap();
        assert_eq!(some.len(), all.len() / 2);
        assert_eq!(some, all[..some.len()].to_vec());
        assert_eq!(d.enumerate_single_dim_keys_capped(at(NEW_YEAR + 9 * DAY)).ok().unwrap(), all);
        assert!(d.enumerate_single_dim_keys_capped(at(NEW_YEAR)).ok().unwrap().is_empty());
    }
    let s = fixed(&["b", "a"]);
    assert_eq!(s.enumerate_single_dim_keys_capped(at(0)).ok().unwrap(), keys(&s));
    let both = dims(vec![
        ("t", cron("0 0 * * *", NEW_YEAR, NEW_YEAR + 3 * DAY)),
        ("r", fixed(&["eu", "us"])),
    ]);
    let all = shown(&both);
    let some = both.get_partition_keys_capped(at(NEW_YEAR + 2 * DAY)).ok().unwrap();
    assert_eq!((all.len(), some.len()), (6, 4));
    assert!(some.iter().all(|k| all.contains(&k.display())));
}

#[test]
fn windows_of_a_schedule_abut() {
    let d = cron("0 9 * * MON", NEW_YEAR, NEW_YEAR + 30 * DAY);
    let ks = keys(&d);
    assert_eq!(ks.len(), 5);
    for pair in ks.windows(2) {
        let r = look_up(&d.keys_to_read(&PyPartitionKey::Single { key: pair.to_vec() }));
        let (s, e) = d.compute_time_window(&pair[0], &r).ok().unwrap().unwrap();
        let (t, _) = d.compute_time_window(&pair[1], &r).ok().unwrap().unwrap();
        assert_eq!(e, t);
        assert_eq!(e.secs - s.secs, 7 * DAY);
    }
}

#[test]
fn an_intersection_has_the_common_keys() {
    let common = |a: &PartitionsDefinition, b: &PartitionsDefinition| {
        let (x, y) = (shown(a), shown(b));
        let mut want: Vec<String> = x.into_iter().filter(|k| y.contains(k)).collect();
        let mut got = shown(&a.intersect(b).ok().unwrap());
        want.sort();
        got.sort();
        assert!(!got.is_empty());
        assert_eq!(got, want);
        assert!(b.intersect(a).is_ok());
        assert!(a.intersect(a).ok().unwrap().same(a));
    };
    common(&fixed(&["a", "b", "c"]), &fixed(&["c", "x", "a"]));
    common(
        &cron("0 0 * * *", NEW_YEAR, NEW_YEAR + 9 * DAY),
        &cron("0 0 * * *", NEW_YEAR + 3 * DAY + 5, NEW_YEAR + 12 * DAY),
    );
    common(
        &every("90", 90_000_000_000, NEW_YEAR, NEW_YEAR + 3600),
        &every("90", 90_000_000_000, NEW_YEAR + 180, NEW_YEAR + 900),
    );
    let a = dims(vec![
        ("t", cron("0 0 * * *", NEW_YEAR, NEW_YEAR + 3 * DAY)),
        ("r", fixed(&["eu", "us"])),
    ]);
    let b = dims(vec![
        ("r", fixed(&["us", "de"])),
        ("t", cron("0 0 * * *", NEW_YEAR + DAY, NEW_YEAR + 9 * DAY)),
    ]);
    common(&a, &b);
    match a.intersect(&b).ok().unwrap() {
        PartitionsDefinition::Multi { dimensions } => {
            assert_eq!(dimensions[0].0, "t");
            assert_eq!(dimensions[1].0, "r");
        }
        _ => panic!("several dimensions"),
    }
    assert!(fixed(&["a"]).intersect(&fixed(&["b"])).is_err());
    assert!(fixed(&["b"]).intersect(&fixed(&["a"])).is_err());
    assert!(a.intersect(&fixed(&["a"])).is_err());
    assert!(fixed(&["a"]).intersect(&a).is_err());
}

#[test]
fn lengths_are_compared_as_numbers() {
    let nan = every("NaN", 0, NEW_YEAR, NEW_YEAR + DAY);
    assert!(!nan.same(&nan.copy()));
    assert!(nan.intersect(&nan).is_err());
    let zero = every("0", 0, NEW_YEAR, NEW_YEAR + DAY);
    let below = every("-0", 0, NEW_YEAR, NEW_YEAR + DAY);
    assert!(zero.same(&below) && below.same(&zero));
    assert!(zero.intersect(&below).is_ok());
    let hour = every("3600", 3_600_000_000_000, NEW_YEAR, NEW_YEAR + DAY);
    assert!(hour.same(&hour.copy()));
    assert!(!hour.same(&zero));
    let inf = every("inf", i64::MAX as i128, NEW_YEAR, NEW_YEAR + DAY);
    assert!(inf.same(&inf.copy()));
}

#[test]
fn what_a_range_reads() {
    let d = cron("0 0 * * *", NEW_YEAR, NEW_YEAR + 3 * DAY);
    let r = PyPartitionKeyRange::single(
        "2024-01-02T00:00:00".to_string(),
        "2024-01-09T00:00:00".to_string(),
    );
    let asks = r.keys_to_read(&d, at(0));
    let texts: Vec<&str> = asks.iter().map(|a| a.0.as_str()).collect();
    assert_eq!(
        texts,
        vec![
            "2024-01-02T00:00:00",
            "2024-01-09T00:00:00",
            "2024-01-01T00:00:00",
            "2024-01-02T00:00:00",
            "2024-01-03T00:00:00",
        ]
    );
    assert!(asks.iter().all(|a| a.1 == STAMP));
    let found = r.resolve_at(&d, at(0), &look_up(&asks)).ok().unwrap();
    assert_eq!(found.len(), 2);
    assert!(r.keys_to_read(&fixed(&["a"]), at(0)).is_empty());
    let mut more = look_up(&asks);
    more.note("2024-01-05T00:00:00".to_string(), STAMP.to_string(), Ok(at(0)));
    assert_eq!(r.resolve_at(&d, at(0), &more).ok().unwrap().len(), 2);
    let multi = dims(vec![("t", d), ("r", fixed(&["eu"]))]);
    assert!(multi.keys_to_read(&one("x")).is_empty());
}

#[test]
fn what_a_mapping_shifts_and_reads() {
    let up = cron("0 0 * * *", NEW_YEAR, NEW_YEAR + 3 * DAY);
    let m = PartitionMapping::time_window(-1);
    let key = one("2024-01-02T00:00:00");
    let asks = m.shifts_to_make(&key, Some(&up));
    assert_eq!(asks.len(), 1);
    assert_eq!((asks[0].key.as_str(), asks[0].offset), ("2024-01-02T00:00:00", -1));
    let mut facts =
        KeyFacts { now: at(0), readings: Readings::new(), shifts: Shifts::new() };
    for a in asks {
        facts.shifts.entries.push(Shift {
            grid: a.grid,
            key: a.key,
            offset: a.offset,
            to: Ok("2024-01-01T00:00:00".to_string()),
        });
    }
    let reads = m.keys_to_read(&key, None, Some(&up), facts.now, &facts.shifts);
    assert_eq!(reads, vec![("2024-01-01T00:00:00".to_string(), STAMP.to_string())]);
    facts.readings = look_up(&reads);
    match m.resolve_upstream_key(Some(&key), None, Some(&up), &facts) {
        Ok(UpstreamKeyResolution::Load(Some(k))) => assert!(k.same(&one("2024-01-01T00:00:00"))),
        _ => panic!("a key to load"),
    }
    assert!(PartitionMapping::time_window(0).shifts_to_make(&key, Some(&up)).is_empty());
    let subset = PartitionMapping::Subset;
    let reads = subset.keys_to_read(&key, None, Some(&up), at(0), &Shifts::new());
    assert_eq!(reads, vec![("2024-01-02T00:00:00".to_string(), STAMP.to_string())]);
}

/// Midnight of the first of January 5000.
const LAST_YEAR: i64 = 95_617_584_000;

#[test]
fn a_schedule_in_its_last_year_goes_on_to_no_other_minute() {
    let listed = |expr: &str, start: i64, end: i64| {
        let d = cron(expr, LAST_YEAR + start, LAST_YEAR + end);
        let ks = keys(&d);
        for (i, k) in ks.iter().enumerate() {
            assert!(accepts(&d, &one(k)));
            let r = look_up(&d.keys_to_read(&one(k)));
            assert_eq!(d.single_dim_key_index(k, &r).ok().unwrap(), Some(i));
        }
        ks
    };
    assert_eq!(
        listed("0 0 * * *", -2 * DAY, 3 * DAY),
        owned(&["4999-12-30T00:00:00", "4999-12-31T00:00:00", "5000-01-01T00:00:00"])
    );
    assert_eq!(
        listed("30 12 9 * * *", -DAY, 3 * DAY),
        owned(&["4999-12-31T09:12:30", "5000-01-01T09:12:30"])
    );
    assert_eq!(listed("59 59 23 * * *", -DAY, 4 * DAY).len(), 5);
    assert_eq!(listed("58 * * * * *", 0, 180).len(), 3);
    assert_eq!(
        listed("0,30 * * * * *", 0, 3600),
        owned(&["5000-01-01T00:00:00", "5000-01-01T00:00:30"])
    );
    assert_eq!(
        listed("0 0,30 * * * *", 1800, 7200),
        owned(&["5000-01-01T00:30:00"])
    );
    assert_eq!(
        listed("0 15 0,3 * * *", 901, DAY),
        Vec::<String>::new()
    );
    assert_eq!(
        listed("0 15 1,3 * * *", 60, DAY),
        owned(&["5000-01-01T01:15:00"])
    );
    assert!(listed("0 0 0 2 1 *", 0, 3 * DAY).is_empty());
    assert_eq!(listed("57-58 * * * * *", 58, 180).len(), 2);
    assert!(listed("* * * * * *", 366 * DAY, 367 * DAY).is_empty());
}

#[test]
fn windows_in_the_last_year_of_schedules() {
    let window = |expr: &str| {
        let d = cron(expr, LAST_YEAR, LAST_YEAR + 180);
        let ks = keys(&d);
        let r = look_up(&d.keys_to_read(&PyPartitionKey::Single { key: ks.clone() }));
        d.compute_time_window(&ks[0], &r)
    };
    let (start, end) = window("59 * * * * *").ok().unwrap().unwrap();
    assert_eq!((start, end), (at(LAST_YEAR + 59), at(LAST_YEAR + 119)));
    let stuck = window("58 * * * * *").err().unwrap();
    assert!(stuck.message.starts_with("Failed to find next cron tick: "));
}
