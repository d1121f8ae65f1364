use rs_datastore::item::{create_item, items_equal, Item};
use rs_datastore::nestedmap::NestedMap;
use rs_datastore::options::GetOptions;

pub struct QueryCase {
    pub name: &'static str,
    pub setup: Box<dyn Fn(&mut NestedMap)>,
    pub search_keys: String,
    pub expected: Vec<Item>,
    pub max_history: usize,
}

fn run_query_cases(test_cases: Vec<QueryCase>) {
    for test in test_cases {
        let mut nm = NestedMap::new(test.max_history);
        (test.setup)(&mut nm);
        let results = nm.query(
            &test.search_keys,
            Some(GetOptions::new().history_count(test.max_history)),
        );
        assert_eq!(
            results.len(),
            test.expected.len(),
            "Test {}: Expected {} results, got {}",
            test.name,
            test.expected.len(),
            results.len()
        );

        // Sorting by keys before comparing, since order is not guaranteed
        let mut sorted_results = results;
        let mut sorted_expected = test.expected;
        sorted_results.sort_by_key(|item| item.key.clone());
        sorted_expected.sort_by_key(|item| item.key.clone());

        assert!(
            sorted_results
                .iter()
                .zip(sorted_expected.iter())
                .all(|(a, b)| items_equal(a, b)),
            "Test {}: Items do not match.",
            test.name
        );
    }
}

#[test]
fn test_queries() {
    let test_cases = vec![
        QueryCase {
            name: "Test exact match",
            setup: Box::new(|nm| {
                nm.set("a.b.c", &create_item("a.b.c", b"exact value"), None);
            }),
            search_keys: "a.b.c".to_string(),
            expected: vec![create_item("a.b.c", b"exact value")],
            max_history: 1,
        },
        QueryCase {
            name: "Test wildcard match",
            setup: Box::new(|nm| {
                nm.set("a.b.c", &create_item("a.b.c", b"wildcard value abc"), None);
                nm.set("a.b.x", &create_item("a.b.x", b"wildcard value abx"), None);
                nm.set("a.b.y", &create_item("a.b.y", b"wildcard value aby"), None);
                nm.set(
                    "a.b.z.z",
                    &create_item("a.b.z.z", b"wildcard value abzz"),
                    None,
                );
            }),
            search_keys: "a.b.*".to_string(),
            expected: vec![
                create_item("a.b.c", b"wildcard value abc"),
                create_item("a.b.x", b"wildcard value abx"),
                create_item("a.b.y", b"wildcard value aby"),
            ],
            max_history: 1,
        },
        QueryCase {
            name: "Test prefix match",
            setup: Box::new(|nm| {
                nm.set("a.b.c", &create_item("a.b.c", b"prefix value abc"), None);
                nm.set("a.b.x", &create_item("a.b.x", b"prefix value abx"), None);
                nm.set("a.b.y", &create_item("a.b.y", b"prefix value aby"), None);
                nm.set("a.b.y.z", &create_item("a.b.y.z", b"prefix value abyz"), None);
                nm.set(
                    "a.b.y.z.z",
                    &create_item("a.b.y.z.z", b"prefix value abyzz"),
                    None,
                );
            }),
            search_keys: "a.b.y.>".to_string(),
            expected: vec![
                create_item("a.b.y.z", b"prefix value abyz"),
                create_item("a.b.y.z.z", b"prefix value abyzz"),
            ],
            max_history: 1,
        },
        QueryCase {
            name: "Test prefix and wildcard match",
            setup: Box::new(|nm| {
                nm.set("a.b.c", &create_item("a.b.c", b"prefix value abc"), None);
                nm.set("a.c.x", &create_item("a.c.x", b"prefix value acx"), None);
                nm.set("a.d.y", &create_item("a.d.y", b"prefix value ady"), None);
                nm.set("a.e.y.z", &create_item("a.e.y.z", b"prefix value aeyz"), None);
                nm.set(
                    "a.f.y.z.z",
                    &create_item("a.f.y.z.z", b"prefix value afyzz"),
                    None,
                );
            }),
            search_keys: "a.*.y.>".to_string(),
            expected: vec![
                create_item("a.e.y.z", b"prefix value aeyz"),
                create_item("a.f.y.z.z", b"prefix value afyzz"),
            ],
            max_history: 1,
        },
        QueryCase {
            name: "Test prefix match #2",
            setup: Box::new(|nm| {
                nm.set(
                    "interface.lab1.p01.rk01.esr1a.management0.oper-status",
                    &create_item("interface.lab1.p01.rk01.esr1a.management0.oper-status", b"up"),
                    None,
                );
                nm.set(
                    "interface.lab1.p01.rk01.esr1a.ethernet1.oper-status",
                    &create_item("interface.lab1.p01.rk01.esr1a.ethernet1.oper-status", b"up"),
                    None,
                );
                nm.set(
                    "interface.lab1.p01.rk01.esr1a.ethernet2.oper-status",
                    &create_item("interface.lab1.p01.rk01.esr1a.ethernet2.oper-status", b"up"),
                    None,
                );
                nm.set(
                    "interface.lab1.p01.rk01.esr1a.management0.admin-status",
                    &create_item("interface.lab1.p01.rk01.esr1a.management0.admin-status", b"up"),
                    None,
                );
                nm.set(
                    "interface.lab1.p01.rk01.esr1a.ethernet1.admin-status",
                    &create_item("interface.lab1.p01.rk01.esr1a.ethernet1.admin-status", b"up"),
                    None,
                );
                nm.set(
                    "interface.lab1.p01.rk01.esr1a.ethernet2.admin-status",
                    &create_item("interface.lab1.p01.rk01.esr1a.ethernet2.admin-status", b"up"),
                    None,
                );
                nm.set(
                    "interface.lab1.p01.rk01.esr1a.management0.ifindex",
                    &create_item("interface.lab1.p01.rk01.esr1a.management0.ifindex", b"999999"),
                    None,
                );
                nm.set(
                    "interface.lab1.p01.rk01.esr1a.ethernet1.ifindex",
                    &create_item("interface.lab1.p01.rk01.esr1a.ethernet1.ifindex", b"1"),
                    None,
                );
                nm.set(
                    "interface.lab1.p01.rk01.esr1a.ethernet2.ifindex",
                    &create_item("interface.lab1.p01.rk01.esr1a.ethernet2.ifindex", b"2"),
                    None,
                );
            }),
            search_keys: "interface.lab1.p01.rk01.esr1a.management0.>".to_string(),
            expected: vec![
                create_item(
                    "interface.lab1.p01.rk01.esr1a.management0.oper-status",
                    b"up",
                ),
                create_item(
                    "interface.lab1.p01.rk01.esr1a.management0.admin-status",
                    b"up",
                ),
                create_item(
                    "interface.lab1.p01.rk01.esr1a.management0.ifindex",
                    b"999999",
                ),
            ],
            max_history: 1,
        },
        QueryCase {
            name: "Test prefix match #3",
            setup: Box::new(|nm| {
                let keys = [
                    "bgp.neighbor.lab1.p01.rk01.esr1b.default.peer-ip.1_1_1_1.session-state",
                    "bgp.neighbor.lab1.p01.rk01.esr1b.default.peer-ip.1_1_1_1.peer-state",
                    "bgp.neighbor.lab1.p01.rk01.esr1b.default.peer-ip.1_1_1_1.local-as",
                    "bgp.neighbor.lab1.p01.rk01.esr1b.default.peer-ip.1_1_1_1.peer-as",
                    "bgp.neighbor.lab1.p01.rk01.esr1b.default.peer-ip.1_1_1_1.peer-description",
                    "bgp.neighbor.lab1.p01.rk01.esr1b.default.peer-ip.1_1_1_1.peer-type",
                    "bgp.neighbor.lab1.p01.rk01.esr1b.default.peer-ip.1_1_1_1.peer-group",
                    "bgp.neighbor.lab1.p01.rk01.esr1a.default.peer-ip.1_1_1_2.session-state",
                    "bgp.neighbor.lab1.p01.rk01.esr1a.default.peer-ip.1_1_1_2.peer-state",
                    "bgp.neighbor.lab1.p01.rk01.esr1a.default.peer-ip.1_1_1_2.local-as",
                    "bgp.neighbor.lab1.p01.rk01.esr1a.default.peer-ip.1_1_1_2.peer-as",
                    "bgp.neighbor.lab1.p01.rk01.esr1a.default.peer-ip.1_1_1_2.peer-description",
                    "bgp.neighbor.lab1.p01.rk01.esr1a.default.peer-ip.1_1_1_2.peer-type",
                    "bgp.neighbor.lab1.p01.rk01.esr1a.default.peer-ip.1_1_1_2.peer-group",
                ];
                let values: [&[u8]; 14] = [
                    b"established",
                    b"established",
                    b"65000",
                    b"65000",
                    b"esr1b",
                    b"internal",
                    b"default",
                    b"established",
                    b"established",
                    b"65000",
                    b"65000",
                    b"esr1b",
                    b"internal",
                    b"default",
                ];
                for (key, value) in keys.iter().zip(values.iter()) {
                    nm.set(key, &create_item(key, value), None);
                }
            }),
            search_keys: "bgp.neighbor.lab1.p01.rk01.*.*.peer-ip.*.*".to_string(),
            expected: vec![
                create_item(
                    "bgp.neighbor.lab1.p01.rk01.esr1a.default.peer-ip.1_1_1_2.session-state",
                    b"established",
                ),
                create_item(
                    "bgp.neighbor.lab1.p01.rk01.esr1a.default.peer-ip.1_1_1_2.peer-state",
                    b"established",
                ),
                create_item(
                    "bgp.neighbor.lab1.p01.rk01.esr1a.default.peer-ip.1_1_1_2.local-as",
                    b"65000",
                ),
                create_item(
                    "bgp.neighbor.lab1.p01.rk01.esr1a.default.peer-ip.1_1_1_2.peer-as",
                    b"65000",
                ),
                create_item(
                    "bgp.neighbor.lab1.p01.rk01.esr1a.default.peer-ip.1_1_1_2.peer-description",
                    b"esr1b",
                ),
                create_item(
                    "bgp.neighbor.lab1.p01.rk01.esr1a.default.peer-ip.1_1_1_2.peer-type",
                    b"internal",
                ),
                create_item(
                    "bgp.neighbor.lab1.p01.rk01.esr1a.default.peer-ip.1_1_1_2.peer-group",
                    b"default",
                ),
                create_item(
                    "bgp.neighbor.lab1.p01.rk01.esr1b.default.peer-ip.1_1_1_1.session-state",
                    b"established",
                ),
                create_item(
                    "bgp.neighbor.lab1.p01.rk01.esr1b.default.peer-ip.1_1_1_1.peer-state",
                    b"established",
                ),
                create_item(
                    "bgp.neighbor.lab1.p01.rk01.esr1b.default.peer-ip.1_1_1_1.local-as",
                    b"65000",
                ),
                create_item(
                    "bgp.neighbor.lab1.p01.rk01.esr1b.default.peer-ip.1_1_1_1.peer-as",
                    b"65000",
                ),
                create_item(
                    "bgp.neighbor.lab1.p01.rk01.esr1b.default.peer-ip.1_1_1_1.peer-description",
                    b"esr1b",
                ),
                create_item(
                    "bgp.neighbor.lab1.p01.rk01.esr1b.default.peer-ip.1_1_1_1.peer-type",
                    b"internal",
                ),
                create_item(
                    "bgp.neighbor.lab1.p01.rk01.esr1b.default.peer-ip.1_1_1_1.peer-group",
                    b"default",
                ),
            ],
            max_history: 1,
        },
    ];

    run_query_cases(test_cases)
}

#[test]
fn test_query_collector_skips_anchor() {
    let mut nm = NestedMap::new(1);
    nm.set("a.b.y", &create_item("a.b.y", b"anchor"), None);
    nm.set("a.b.y.z", &create_item("a.b.y.z", b"below one"), None);
    nm.set("a.b.y.z.z", &create_item("a.b.y.z.z", b"below two"), None);

    let results = nm.query("a.b.y.>", None);
    assert_eq!(results.len(), 2);
    for item in &results {
        assert_ne!(item.key, "a.b.y");
    }
}

#[test]
fn test_query_history_count_zero_means_one() {
    let mut nm = NestedMap::new(5);
    for i in 1..=3 {
        nm.set(
            "a.b",
            &create_item("a.b", &format!("value{}", i).into_bytes()),
            Some(rs_datastore::options::SetOptions::new().preserve_history(true)),
        );
    }
    let zero = nm.query("a.b", Some(GetOptions::new().history_count(0)));
    let absent = nm.query("a.b", None);
    assert_eq!(zero.len(), 1);
    assert_eq!(absent.len(), 1);
    assert_eq!(zero[0].value, b"value3");
    assert_eq!(absent[0].value, b"value3");
}

#[test]
fn test_query_no_matches_is_empty() {
    let mut nm = NestedMap::new(1);
    nm.set("a.b.c", &create_item("a.b.c", b"v"), None);
    assert!(nm.query("a.b.x", None).is_empty());
    assert!(nm.query("x.>", None).is_empty());
    assert!(nm.query("a.b.c.*", None).is_empty());
}
