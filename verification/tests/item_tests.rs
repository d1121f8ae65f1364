use rs_datastore::item::{create_item, items_equal, Item};
use rs_datastore::nestedmap::NestedMap;

#[test]
fn test_items_equal_ignores_timestamp_and_id() {
    let a = Item {
        key: "a.b".to_string(),
        value: b"v".to_vec(),
        timestamp: 1,
        id: 10,
    };
    let b = Item {
        key: "a.b".to_string(),
        value: b"v".to_vec(),
        timestamp: 2,
        id: 20,
    };
    assert!(items_equal(&a, &b));

    let c = Item {
        key: "a.b".to_string(),
        value: b"w".to_vec(),
        timestamp: 1,
        id: 10,
    };
    assert!(!items_equal(&a, &c));

    let d = Item {
        key: "a.c".to_string(),
        value: b"v".to_vec(),
        timestamp: 1,
        id: 10,
    };
    assert!(!items_equal(&a, &d));
}

#[test]
fn test_create_item_fields() {
    let item = create_item("x.y", b"payload");
    assert_eq!(item.key, "x.y");
    assert_eq!(item.value, b"payload");
    assert_eq!(item.id, 1);
}

#[test]
fn test_item_duplicate_is_equal() {
    let item = create_item("x.y", b"payload");
    let copy = item.duplicate();
    assert_eq!(copy.key, item.key);
    assert_eq!(copy.value, item.value);
    assert_eq!(copy.timestamp, item.timestamp);
    assert_eq!(copy.id, item.id);
}

#[test]
fn test_get_absent_paths() {
    let mut nm = NestedMap::new(1);
    nm.set("a.b.c", &create_item("a.b.c", b"v"), None);

    assert!(nm.get("a.b").is_none());
    assert!(nm.get("a.b.c.d").is_none());
    assert!(nm.get("a.b.x").is_none());
    assert!(nm.get("").is_none());
    assert!(nm.get("a.b.c").is_some());
}
