use rs_datastore::item::{create_item, items_equal, Item};
use rs_datastore::nestedmap::NestedMap;
use rs_datastore::options::{GetOptions, SetOptions};

pub struct TestCase {
    pub name: &'static str,
    pub setup: Box<dyn Fn(&mut NestedMap)>,
    pub search_keys: String,
    pub expected: Vec<Item>,
    pub max_history: usize,
}

fn get_tests(test_cases: Vec<TestCase>) {
    for test in test_cases {
        let mut nm = NestedMap::new(test.max_history);
        (test.setup)(&mut nm);

        if let Some(item) = nm.get(&test.search_keys) {
            assert!(items_equal(item, &test.expected[0]), "Test {}", test.name);
        } else {
            panic!("Test {}: expected to find key {}", test.name, test.search_keys);
        }
    }
}

fn set_tests(test_cases: Vec<TestCase>) {
    for test in test_cases {
        let mut nm = NestedMap::new(test.max_history);
        (test.setup)(&mut nm);

        let results = nm.query(
            &test.search_keys,
            Some(GetOptions::new().history_count(test.max_history)),
        );

        assert_eq!(results.len(), test.expected.len(), "Test {}", test.name);
        for (i, v) in results.iter().enumerate() {
            assert!(items_equal(v, &test.expected[i]), "Test {}", test.name);
        }
    }
}

fn delete_tests(test_cases: Vec<TestCase>) {
    for test in test_cases {
        let mut nm = NestedMap::new(test.max_history);
        (test.setup)(&mut nm);

        let result: bool = nm.delete(&test.search_keys);
        assert!(result, "Test {}", test.name);

        for exp in test.expected {
            if let Some(item) = nm.get(&exp.key) {
                panic!("Expected {:?} to be deleted", item.key);
            }
        }
    }
}

#[test]
fn test_get_exact() {
    let test_cases = vec![
        TestCase {
            name: "Test depth 1",
            setup: Box::new(|nm| {
                nm.set("a", &create_item("a", b"the value a"), None);
            }),
            search_keys: "a".to_string(),
            expected: vec![create_item("a", b"the value a")],
            max_history: 1,
        },
        TestCase {
            name: "Test depth 3",
            setup: Box::new(|nm| {
                nm.set("a.b.c", &create_item("a.b.c", b"the value abc"), None);
            }),
            search_keys: "a.b.c".to_string(),
            expected: vec![create_item("a.b.c", b"the value abc")],
            max_history: 1,
        },
        TestCase {
            name: "Test depth 6",
            setup: Box::new(|nm| {
                nm.set(
                    "a.b.c.d.e.f",
                    &create_item("a.b.c.d.e.f", b"the value abcdef"),
                    None,
                );
            }),
            search_keys: "a.b.c.d.e.f".to_string(),
            expected: vec![create_item("a.b.c.d.e.f", b"the value abcdef")],
            max_history: 1,
        },
    ];

    get_tests(test_cases)
}

#[test]
fn test_set() {
    let test_cases = vec![
        TestCase {
            name: "Test depth 1",
            setup: Box::new(|nm| {
                nm.set("a", &create_item("a", b"the value a"), None);
            }),
            search_keys: "a".to_string(),
            expected: vec![create_item("a", b"the value a")],
            max_history: 1,
        },
        TestCase {
            name: "Test depth 3",
            setup: Box::new(|nm| {
                nm.set("a.b.c", &create_item("a.b.c", b"the value abc"), None);
            }),
            search_keys: "a.b.c".to_string(),
            expected: vec![create_item("a.b.c", b"the value abc")],
            max_history: 1,
        },
        TestCase {
            name: "Test depth 6",
            setup: Box::new(|nm| {
                nm.set(
                    "a.b.c.d.e.f",
                    &create_item("a.b.c.d.e.f", b"the value abcdef"),
                    None,
                );
            }),
            search_keys: "a.b.c.d.e.f".to_string(),
            expected: vec![create_item("a.b.c.d.e.f", b"the value abcdef")],
            max_history: 1,
        },
    ];

    set_tests(test_cases)
}

#[test]
fn test_set_without_history() {
    let test_cases = vec![TestCase {
        name: "Test without history option",
        setup: Box::new(|nm| {
            for i in 1..=7 {
                nm.set(
                    "a.b.c.d",
                    &create_item("a.b.c.d", &format!("value{}", i).into_bytes()),
                    Some(SetOptions::new().preserve_history(false)),
                );
            }
        }),
        search_keys: "a.b.c.d".to_string(),
        expected: vec![create_item("a.b.c.d", b"value7")],
        max_history: 5,
    }];

    set_tests(test_cases)
}

#[test]
fn test_set_history() {
    let test_cases = vec![
        TestCase {
            name: "Test more than max_history values",
            setup: Box::new(|nm| {
                for i in 1..=7 {
                    nm.set(
                        "a.b.c.d",
                        &create_item("a.b.c.d", &format!("value{}", i).into_bytes()),
                        Some(SetOptions::new().preserve_history(true)),
                    );
                }
            }),
            search_keys: "a.b.c.d".to_string(),
            expected: vec![
                create_item("a.b.c.d", b"value7"),
                create_item("a.b.c.d", b"value6"),
                create_item("a.b.c.d", b"value5"),
                create_item("a.b.c.d", b"value4"),
                create_item("a.b.c.d", b"value3"),
            ],
            max_history: 5,
        },
        TestCase {
            name: "Test less than max_history values",
            setup: Box::new(|nm| {
                for i in 1..=3 {
                    nm.set(
                        "a.b.c.d",
                        &create_item("a.b.c.d", &format!("value{}", i).into_bytes()),
                        Some(SetOptions::new().preserve_history(true)),
                    );
                }
            }),
            search_keys: "a.b.c.d".to_string(),
            expected: vec![
                create_item("a.b.c.d", b"value3"),
                create_item("a.b.c.d", b"value2"),
                create_item("a.b.c.d", b"value1"),
            ],
            max_history: 5,
        },
        TestCase {
            name: "Test exactly max_history values",
            setup: Box::new(|nm| {
                for i in 1..=5 {
                    nm.set(
                        "a.b.c.d",
                        &create_item("a.b.c.d", &format!("value{}", i).into_bytes()),
                        Some(SetOptions::new().preserve_history(true)),
                    );
                }
            }),
            search_keys: "a.b.c.d".to_string(),
            expected: vec![
                create_item("a.b.c.d", b"value5"),
                create_item("a.b.c.d", b"value4"),
                create_item("a.b.c.d", b"value3"),
                create_item("a.b.c.d", b"value2"),
                create_item("a.b.c.d", b"value1"),
            ],
            max_history: 5,
        },
    ];

    set_tests(test_cases)
}

#[test]
fn test_set_mixed_history() {
    let test_cases = vec![TestCase {
        name: "Test more than max_history values",
        setup: Box::new(|nm| {
            nm.set(
                "a.b.c.d",
                &create_item("a.b.c.d", b"value1"),
                Some(SetOptions::new().preserve_history(true)),
            );
            nm.set(
                "a.b.c.d",
                &create_item("a.b.c.d", b"value2"),
                Some(SetOptions::new().preserve_history(true)),
            );
            nm.set(
                "a.b.c.d",
                &create_item("a.b.c.d", b"value3"),
                Some(SetOptions::new().preserve_history(true)),
            );
            nm.set(
                "a.b.c.d",
                &create_item("a.b.c.d", b"value4"),
                Some(SetOptions::new().preserve_history(false)),
            );
            nm.set(
                "a.b.c.d",
                &create_item("a.b.c.d", b"value5"),
                Some(SetOptions::new().preserve_history(true)),
            );
        }),
        search_keys: "a.b.c.d".to_string(),
        expected: vec![
            create_item("a.b.c.d", b"value5"),
            create_item("a.b.c.d", b"value4"),
            create_item("a.b.c.d", b"value2"),
            create_item("a.b.c.d", b"value1"),
        ],
        max_history: 5,
    }];

    set_tests(test_cases)
}

#[test]
fn test_delete() {
    let test_cases = vec![
        TestCase {
            name: "Test depth 1",
            setup: Box::new(|nm| {
                nm.set("a", &create_item("a", b"the value a"), None);
            }),
            search_keys: "a".to_string(),
            expected: Vec::new(),
            max_history: 1,
        },
        TestCase {
            name: "Test depth 3",
            setup: Box::new(|nm| {
                nm.set("a.b.c", &create_item("a.b.c", b"the value abc"), None);
            }),
            search_keys: "a.b.c".to_string(),
            expected: Vec::new(),
            max_history: 1,
        },
        TestCase {
            name: "Test depth 5",
            setup: Box::new(|nm| {
                nm.set(
                    "a.b.c.d.e",
                    &create_item("a.b.c.d.e", b"the value abcde"),
                    None,
                );
            }),
            search_keys: "a.b.c.d.e".to_string(),
            expected: Vec::new(),
            max_history: 1,
        },
    ];

    delete_tests(test_cases)
}

#[test]
fn test_delete_with_prefix() {
    let test_cases = vec![
        TestCase {
            name: "Test depth 3",
            setup: Box::new(|nm| {
                nm.set("a", &create_item("a", b"the value a"), None);
                nm.set("a.b", &create_item("a.b", b"the value ab"), None);
                nm.set("a.b.c", &create_item("a.b.c", b"the value abc"), None);
                nm.set("a.b.c.d", &create_item("a.b.c.d", b"the value abcd"), None);
                nm.set(
                    "a.b.c.d.e",
                    &create_item("a.b.c.d.e", b"the value abcde"),
                    None,
                );
            }),
            search_keys: "a.b.c".to_string(),
            expected: vec![
                create_item("a.b.c.d", b"the value abcd"),
                create_item("a.b.c", b"the value abc"),
            ],
            max_history: 1,
        },
        TestCase {
            name: "Test depth 6",
            setup: Box::new(|nm| {
                nm.set("a", &create_item("a", b"the value a"), None);
                nm.set("a.b", &create_item("a.b", b"the value ab"), None);
                nm.set("a.b.c", &create_item("a.b.c", b"the value abc"), None);
                nm.set("a.b.c.d", &create_item("a.b.c.d", b"the value abcd"), None);
                nm.set(
                    "a.b.c.d.e",
                    &create_item("a.b.c.d.e", b"the value abcde"),
                    None,
                );
                nm.set(
                    "a.b.c.d.e.f",
                    &create_item("a.b.c.d.e.f", b"the value abcdef"),
                    None,
                );
                nm.set(
                    "a.b.c.d.e.f.g",
                    &create_item("a.b.c.d.e.f.g", b"the value abcdefg"),
                    None,
                );
            }),
            search_keys: "a.b.c.d.e.f".to_string(),
            expected: vec![create_item("a.b.c.d.e.f.g", b"the value abcdefg")],
            max_history: 1,
        },
    ];

    delete_tests(test_cases)
}

#[test]
fn test_delete_at_index() {
    let mut nm = NestedMap::new(3);

    nm.set(
        "a.b.c",
        &create_item("a.b.c", b"value1"),
        Some(SetOptions::new().preserve_history(true)),
    );
    nm.set(
        "a.b.c",
        &create_item("a.b.c", b"value2"),
        Some(SetOptions::new().preserve_history(true)),
    );
    nm.set(
        "a.b.c",
        &create_item("a.b.c", b"value3"),
        Some(SetOptions::new().preserve_history(true)),
    );

    // delete index 2
    let r: bool = nm.delete_at_index("a.b.c", 2);
    assert!(r);

    let items: Vec<Item> = nm.query("a.b.c", Some(GetOptions::new().history_count(3)));
    assert_eq!(items.len(), 2);

    assert_eq!(items[0].value, b"value3");
    assert_eq!(items[1].value, b"value2");
}

#[test]
fn test_delete_at_index_last() {
    let mut nm = NestedMap::new(3);

    nm.set(
        "a.b.c",
        &create_item("a.b.c", b"value1"),
        Some(SetOptions::new().preserve_history(true)),
    );

    // delete index 0
    let r: bool = nm.delete_at_index("a.b.c", 0);
    assert!(r);

    let items: Vec<Item> = nm.query("a.b.c", Some(GetOptions::new().history_count(3)));
    assert_eq!(items.len(), 0);
}
