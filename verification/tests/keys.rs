use rivers::errors::FaultKind;
use rivers::names::NameMap;
use rivers::partitions::backfill_strategy::{BackfillStrategy, PyBackfillStrategy};
use rivers::partitions::identity::HashPart;
use rivers::partitions::key::PyPartitionKey;
use rivers::partitions::key_range::{PyPartitionKeyRange, SelectionSpec};
use rivers::partitions::key_set::OrderedKeySet;
use rivers::partitions::product::cartesian_product;

fn owned(v: &[&str]) -> Vec<String> {
    v.iter().map(|s| s.to_string()).collect()
}

fn single(v: &[&str]) -> PyPartitionKey {
    PyPartitionKey::single(owned(v)).ok().unwrap()
}

fn multi(dims: &[(&str, &[&str])]) -> PyPartitionKey {
    let given = dims.iter().map(|(n, v)| (n.to_string(), owned(v))).collect();
    PyPartitionKey::multi(given).ok().unwrap()
}

fn parts(v: Vec<HashPart>) -> Vec<String> {
    v.iter()
        .map(|p| match p {
            HashPart::Tag(n) => format!("tag {n}"),
            HashPart::Variant(n) => format!("variant {n}"),
            HashPart::Count(n) => format!("count {n}"),
            HashPart::Text(t) => t.clone(),
        })
        .collect()
}

#[test]
fn a_single_key_prints_bare_and_a_list_in_order() {
    assert_eq!(single(&["a"]).repr(), "PartitionKey(\"a\")");
    assert_eq!(single(&["b", "a"]).repr(), "PartitionKey([\"a\", \"b\"])");
}

#[test]
fn quoting_escapes() {
    assert_eq!(single(&["a\"b\n"]).repr(), "PartitionKey(\"a\\\"b\\n\")");
}

#[test]
fn an_empty_key_list_is_refused() {
    let e = PyPartitionKey::single(vec![]).err().unwrap();
    assert_eq!(e.kind, FaultKind::Definition);
    assert_eq!(e.message, "partition key list must not be empty");
}

#[test]
fn dimensions_print_in_the_order_of_their_names() {
    let k = multi(&[("region", &["us", "eu"]), ("date", &["2024-01-01"])]);
    assert_eq!(
        k.repr(),
        "PartitionKey({\"date\": \"2024-01-01\", \"region\": [\"eu\", \"us\"]})"
    );
}

#[test]
fn a_dimension_needs_a_key_and_a_key_a_dimension() {
    let e = PyPartitionKey::multi(vec![("d".to_string(), vec![])]).err().unwrap();
    assert_eq!(e.message, "partition key list for dimension 'd' must not be empty");
    let e = PyPartitionKey::multi(vec![]).err().unwrap();
    assert_eq!(e.message, "PartitionKey dict must have at least one dimension");
}

#[test]
fn the_later_of_two_dimensions_of_one_name_counts() {
    let k = multi(&[("d", &["a"]), ("d", &["b"])]);
    assert!(k.same(&multi(&[("d", &["b"])])));
}

#[test]
fn a_batch_prints_its_members() {
    let k = PyPartitionKey::Batch { members: vec![single(&["a"]), single(&["b"])] };
    assert_eq!(k.repr(), "PartitionKey.Set([PartitionKey(\"a\"), PartitionKey(\"b\")])");
}

#[test]
fn sameness_of_keys_goes_by_what_they_stand_for() {
    let ab = multi(&[("a", &["1"]), ("b", &["2"])]);
    let ba = multi(&[("b", &["2"]), ("a", &["1"])]);
    assert!(ab.same(&ba));
    assert!(!ab.same(&multi(&[("a", &["1"])])));
    assert!(!ab.same(&multi(&[("a", &["1"]), ("b", &["3"])])));
    assert!(!single(&["a"]).same(&multi(&[("a", &["a"])])));
    assert!(ab.copy().same(&ab));
    let x = PyPartitionKey::Batch { members: vec![ab.copy()] };
    let y = PyPartitionKey::Batch { members: vec![ba] };
    assert!(x.same(&y));
    assert!(!x.same(&PyPartitionKey::Batch { members: vec![] }));
}

#[test]
fn same_keys_hash_alike() {
    let ab = multi(&[("a", &["1"]), ("b", &["2"])]);
    let ba = multi(&[("b", &["2"]), ("a", &["1"])]);
    assert_eq!(parts(ab.hash_parts()), owned(&["tag 1", "a", "1", "b", "2"]));
    assert_eq!(parts(ab.hash_parts()), parts(ba.hash_parts()));
    assert_eq!(parts(single(&["x", "y"]).hash_parts()), owned(&["tag 0", "x", "y"]));
    let batch = PyPartitionKey::Batch { members: vec![single(&["x"]), ab] };
    assert_eq!(
        parts(batch.hash_parts()),
        owned(&[
            "tag 2", "variant 0", "count 1", "x", "variant 1", "a", "count 1", "1", "b",
            "count 1", "2",
        ])
    );
}

#[test]
fn members_of_a_batched_key() {
    let ms = single(&["a", "b"]).members();
    assert_eq!(ms.len(), 2);
    assert!(ms[0].same(&single(&["a"])));
    assert!(ms[1].same(&single(&["b"])));
    let ms = multi(&[("x", &["1", "2"]), ("y", &["3"])]).members();
    assert_eq!(ms.len(), 2);
    assert!(ms[0].same(&multi(&[("x", &["1"]), ("y", &["3"])])));
    assert!(ms[1].same(&multi(&[("x", &["2"]), ("y", &["3"])])));
    let batch = PyPartitionKey::Batch { members: vec![single(&["a", "b"]), single(&["c"])] };
    assert_eq!(batch.members().len(), 3);
}

#[test]
fn display_forms() {
    assert_eq!(single(&["a"]).display(), "a");
    assert_eq!(multi(&[("b", &["2"]), ("a", &["1"])]).display(), "a=1|b=2");
}

#[test]
fn a_product_varies_its_last_dimension_fastest() {
    let dims = vec![
        ("x".to_string(), owned(&["1", "2"])),
        ("y".to_string(), owned(&["a", "b"])),
    ];
    let got: Vec<(String, String)> = cartesian_product(&dims)
        .iter()
        .map(|m| (m.get("x").unwrap().clone(), m.get("y").unwrap().clone()))
        .collect();
    let want: Vec<(String, String)> = [("1", "a"), ("1", "b"), ("2", "a"), ("2", "b")]
        .iter()
        .map(|(a, b)| (a.to_string(), b.to_string()))
        .collect();
    assert_eq!(got, want);
    assert_eq!(cartesian_product(&[]).len(), 1);
    assert_eq!(cartesian_product(&[("x".to_string(), vec![])]).len(), 0);
}

#[test]
fn a_key_set_keeps_first_occurrences_in_order() {
    let s = OrderedKeySet::new(owned(&["b", "a", "b", "c"]));
    assert_eq!(s.iter(), owned(&["b", "a", "c"]));
    assert_eq!(s.len(), 3);
    assert!(!s.is_empty());
    assert!(s.contains("a"));
    assert!(!s.contains("z"));
    assert_eq!(s.get_index_of("c"), Some(2));
    assert_eq!(s.get_index_of("z"), None);
    assert_eq!(s.get_at(1).unwrap(), "a");
    assert!(s.get_at(3).is_none());
    assert_eq!(s.debug_text(), "[\"b\", \"a\", \"c\"]");
    assert!(s.same(&s.copy()));
    assert!(!s.same(&OrderedKeySet::new(owned(&["a", "b", "c"]))));
}

#[test]
fn ranges_print() {
    let r = PyPartitionKeyRange::single("a".to_string(), "c".to_string());
    assert_eq!(r.repr(), "PartitionKeyRange.single(from_key=\"a\", to_key=\"c\")");
    let r = PyPartitionKeyRange::multi(vec![(
        "d".to_string(),
        SelectionSpec::Ends("a".to_string(), "b".to_string()),
    )])
    .ok()
    .unwrap();
    assert_eq!(r.repr(), "PartitionKeyRange.multi({\"d\": (\"a\", \"b\")})");
}

#[test]
fn a_range_needs_dimensions_and_keys() {
    let e = PyPartitionKeyRange::multi(vec![]).err().unwrap();
    assert_eq!(e.message, "dimensions dict must not be empty");
    let e = PyPartitionKeyRange::multi(vec![("d".to_string(), SelectionSpec::Keys(vec![]))])
        .err()
        .unwrap();
    assert_eq!(e.message, "key list for dimension 'd' must not be empty");
}

#[test]
fn same_ranges_hash_alike() {
    let keys = |v: &[&str]| SelectionSpec::Keys(owned(v));
    let ends = |a: &str, b: &str| SelectionSpec::Ends(a.to_string(), b.to_string());
    let a = PyPartitionKeyRange::multi(vec![
        ("x".to_string(), keys(&["2", "1"])),
        ("d".to_string(), ends("a", "b")),
    ])
    .ok()
    .unwrap();
    let b = PyPartitionKeyRange::multi(vec![
        ("d".to_string(), ends("a", "b")),
        ("x".to_string(), keys(&["1", "2", "1"])),
    ])
    .ok()
    .unwrap();
    assert!(a.same(&b));
    assert_eq!(parts(a.hash_parts()), parts(b.hash_parts()));
    assert_eq!(
        parts(a.hash_parts()),
        owned(&["tag 1", "d", "tag 0", "a", "b", "x", "tag 1", "count 2", "1", "2"])
    );
    let c = PyPartitionKeyRange::single("a".to_string(), "b".to_string());
    assert!(!a.same(&c));
    assert_eq!(parts(c.hash_parts()), owned(&["tag 0", "a", "b"]));
    let d = PyPartitionKeyRange::single("a".to_string(), "c".to_string());
    assert!(!c.same(&d));
}

#[test]
fn backfill_strategies() {
    let p = PyBackfillStrategy::per_dimension(owned(&["d"]), owned(&["r"])).ok().unwrap();
    assert!(p.same(&PyBackfillStrategy::from_core(&p.to_core())));
    assert!(matches!(p.to_core(), BackfillStrategy::PerDimension { .. }));
    assert!(!p.same(&PyBackfillStrategy::MultiRun));
    assert_eq!(PyBackfillStrategy::MultiRun.repr(), "BackfillStrategy.multi_run()");
    assert_eq!(PyBackfillStrategy::SingleRun.repr(), "BackfillStrategy.single_run()");
    assert_eq!(
        p.repr(),
        "BackfillStrategy.per_dimension(multi_run=[\"d\"], single_run=[\"r\"])"
    );
    assert!(PyBackfillStrategy::per_dimension(owned(&["d"]), owned(&["d"])).is_err());
}

#[test]
fn a_name_map_keeps_the_first_place_of_a_name() {
    let mut m: NameMap<u8> = NameMap::new();
    m.insert("b".to_string(), 1);
    m.insert("a".to_string(), 2);
    m.insert("b".to_string(), 3);
    assert_eq!(m.len(), 2);
    assert_eq!(m.names(), owned(&["b", "a"]));
    assert_eq!(m.sorted_names(), owned(&["a", "b"]));
    assert_eq!(*m.get("b").unwrap(), 3);
    assert!(m.get("c").is_none());
}
