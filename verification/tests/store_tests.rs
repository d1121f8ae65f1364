use rs_datastore::item::create_item;
use rs_datastore::nestedmap::NestedMap;
use rs_datastore::options::{GetOptions, SetOptions};
use rs_datastore::store::Datastore;

#[test]
fn test_store_set_then_get() {
    let mut ds = Datastore::new(3);
    let id = ds.set("a.b.c.d.e.f", b"v", None, 1000);
    assert_eq!(id, 0);
    let item = ds.get("a.b.c.d.e.f").expect("value should be present");
    assert_eq!(item.value, b"v");
    assert_eq!(item.timestamp, 1000);
    assert_eq!(item.id, 0);
}

#[test]
fn test_store_ids_strictly_increase() {
    let mut ds = Datastore::new(3);
    let mut last: i64 = -1;
    for i in 0..10 {
        let key = format!("k.{}", i % 3);
        let id = ds.set(&key, b"v", None, 0);
        assert!(id > last);
        last = id;
    }
}

#[test]
fn test_store_ttl_expiration() {
    let mut ds = Datastore::new(1);

    ds.set("a.b.c", b"abc", Some(SetOptions::new().ttl(100)), 0);
    ds.set("a.b.d", b"abd", Some(SetOptions::new().ttl(200)), 0);
    ds.set("a.b.e", b"abe", Some(SetOptions::new().ttl(400)), 0);

    assert_eq!(ds.query("a.b.>", None).len(), 3);
    assert_eq!(ds.next_deadline(), Some(100));

    ds.expire_due(110);
    assert_eq!(ds.query("a.b.>", None).len(), 2);
    assert!(ds.get("a.b.c").is_none());
    assert_eq!(ds.next_deadline(), Some(200));

    ds.expire_due(220);
    assert_eq!(ds.query("a.b.>", None).len(), 1);
    assert!(ds.get("a.b.d").is_none());

    ds.expire_due(430);
    assert_eq!(ds.query("a.b.>", None).len(), 0);
    assert!(ds.get("a.b.e").is_none());
    assert_eq!(ds.next_deadline(), None);
}

#[test]
fn test_store_expired_version_only() {
    // A version that was replaced before its deadline: firing the
    // expiration removes the stamped version, not the newer one.
    let mut ds = Datastore::new(1);
    ds.set("a.b", b"first", Some(SetOptions::new().ttl(100)), 0);
    ds.set("a.b", b"second", None, 50);

    ds.expire_due(150);
    // The overwrite replaced the newest slot, so the expired id was
    // already gone; the newer version stays.
    let item = ds.get("a.b").expect("newer version should remain");
    assert_eq!(item.value, b"second");
}

#[test]
fn test_store_timer_due_order() {
    let mut ds = Datastore::new(1);
    ds.set("x", b"later", Some(SetOptions::new().ttl(500)), 0);
    ds.set("y", b"sooner", Some(SetOptions::new().ttl(50)), 0);
    // The earliest deadline always fronts the queue.
    assert_eq!(ds.next_deadline(), Some(50));
    ds.expire_due(60);
    assert!(ds.get("y").is_none());
    assert!(ds.get("x").is_some());
    assert_eq!(ds.next_deadline(), Some(500));
}

#[test]
fn test_delete_by_id_idempotent() {
    let mut ds = Datastore::new(3);
    let id = ds.set("a.b.c", b"v", None, 0);

    assert!(ds.map.delete_by_id("a.b.c", id));
    assert!(ds.get("a.b.c").is_none());
    assert!(!ds.map.delete_by_id("a.b.c", id));
}

#[test]
fn test_delete_by_id_missing_path() {
    let mut nm = NestedMap::new(1);
    nm.set("a.b", &create_item("a.b", b"v"), None);
    assert!(!nm.delete_by_id("a.x", 1));
    assert!(!nm.delete_by_id("a.b", 2));
}

#[test]
fn test_delete_missing_returns_false() {
    let mut nm = NestedMap::new(1);
    nm.set("a.b", &create_item("a.b", b"v"), None);
    assert!(!nm.delete("a.c"));
    assert!(nm.delete("a.b"));
    assert!(!nm.delete("a.b"));
}

#[test]
fn test_delete_at_index_out_of_range() {
    let mut nm = NestedMap::new(3);
    nm.set(
        "a.b",
        &create_item("a.b", b"v"),
        Some(SetOptions::new().preserve_history(true)),
    );
    assert!(!nm.delete_at_index("a.b", 1));
    assert!(nm.delete_at_index("a.b", 0));
}

#[test]
fn test_options_defaults() {
    let s = SetOptions::new();
    assert!(!s.preserve_history);
    assert_eq!(s.ttl, 3_600_000);
    let s = SetOptions::default().preserve_history(true).ttl(250);
    assert!(s.preserve_history);
    assert_eq!(s.ttl, 250);

    let g = GetOptions::new();
    assert_eq!(g.history_count, 1);
    let g = GetOptions::default().history_count(7);
    assert_eq!(g.history_count, 7);
}

#[test]
fn test_history_count_beyond_size_returns_all() {
    let mut nm = NestedMap::new(5);
    for i in 1..=3 {
        nm.set(
            "p.q",
            &create_item("p.q", &format!("value{}", i).into_bytes()),
            Some(SetOptions::new().preserve_history(true)),
        );
    }
    let items = nm.query("p.q", Some(GetOptions::new().history_count(100)));
    assert_eq!(items.len(), 3);
    assert_eq!(items[0].value, b"value3");
    assert_eq!(items[2].value, b"value1");
}

#[test]
fn test_prefix_can_hold_value_and_children() {
    let mut nm = NestedMap::new(1);
    nm.set("a.b", &create_item("a.b", b"inner"), None);
    nm.set("a.b.c", &create_item("a.b.c", b"leaf"), None);
    assert_eq!(nm.get("a.b").unwrap().value, b"inner");
    assert_eq!(nm.get("a.b.c").unwrap().value, b"leaf");
    // A query at the midpoint does not surface the midpoint's own value.
    let below = nm.query("a.b.>", None);
    assert_eq!(below.len(), 1);
    assert_eq!(below[0].value, b"leaf");
}
