use umd::config::{Engine, Persistence};
use umd::db::{create_db, DbError, HashMapDb};

fn bounded(max: u64) -> Engine {
    Engine { max_items: Some(max), persistence: None }
}

fn unbounded() -> Engine {
    Engine { max_items: None, persistence: None }
}

#[test]
fn flush() {
    let mut db = HashMapDb::new(bounded(3));
    db.set("one", "one".to_string(), None);
    db.set("two", "two".to_string(), None);
    db.set("three", "three".to_string(), None);

    db.flush();

    assert_eq!(db.get("one", 0), None);
    assert_eq!(db.get("two", 0), None);
    assert_eq!(db.get("three", 0), None);
}

#[test]
fn lru() {
    let mut db = HashMapDb::new(bounded(3));
    db.set("one", "one".to_string(), None);
    db.set("two", "two".to_string(), None);
    db.set("three", "three".to_string(), None);

    db.set("four", "four".to_string(), None);
    let outdated = db.get("one", 0);
    assert_eq!(outdated, None);

    assert_eq!(db.get("two", 0), Some("two".to_string()));
}

#[test]
fn lru_refresh() {
    let mut db = HashMapDb::new(bounded(3));
    db.set("a", "a".to_string(), None);
    db.set("b", "b".to_string(), None);
    db.set("c", "c".to_string(), None);

    assert_eq!(db.get("a", 0), Some("a".to_string()));
    db.set("d", "d".to_string(), None);

    assert_eq!(db.get("b", 0), None);
    assert_eq!(db.get("a", 0), Some("a".to_string()));
}

#[test]
fn set_existing_key_evicts_nothing() {
    let mut db = HashMapDb::new(bounded(2));
    db.set("k1", "v1".to_string(), None);
    db.set("k2", "v2".to_string(), None);
    db.set("k1", "v3".to_string(), None);

    assert_eq!(db.len(), 2);
    assert_eq!(db.get("k2", 0), Some("v2".to_string()));
    assert_eq!(db.get("k1", 0), Some("v3".to_string()));
}

#[test]
fn linked_list() {
    let mut db = HashMapDb::new(unbounded());

    // first set
    db.set("foo", "bar".to_string(), None);
    assert_eq!(db.get("foo", 0), Some("bar".to_string()));
    assert!(db.tail_value().is_some());
    assert!(db.head_value().is_some());
    assert_eq!(db.len(), 1);

    // second set
    db.set("foz", "baz".to_string(), None);
    assert_eq!(db.get("foz", 0), Some("baz".to_string()));
    assert!(db.tail_value().is_some());
    assert!(db.head_value().is_some());
    assert_ne!(db.len(), 1);
    assert_eq!(db.tail_value(), Some("baz".to_string()));
    assert_eq!(db.head_value(), Some("bar".to_string()));

    // get first key, it should be the most recently used now then moved to the tail
    let output = db.get("foo", 0);
    assert_eq!(output, Some("bar".to_string()));
    assert_eq!(db.tail_value(), Some("bar".to_string()));
    assert_eq!(db.head_value(), Some("baz".to_string()));

    // set a third key
    db.set("fob", "bax".to_string(), None);
    assert_eq!(db.get("fob", 0), Some("bax".to_string()));
    assert_eq!(db.tail_value(), Some("bax".to_string()));
    assert_eq!(db.head_value(), Some("baz".to_string()));

    // remove the first key
    db.del("foo");
    assert_eq!(db.tail_value(), Some("bax".to_string()));
    assert_eq!(db.head_value(), Some("baz".to_string()));

    // another remove
    db.del("foz");
    assert_eq!(db.len(), 1);
    assert_eq!(db.tail_value(), db.head_value());

    // remove last one
    db.del("fob");
    assert_eq!(db.tail_value(), None);
    assert_eq!(db.head_value(), None);
}

#[test]
fn lazy_ttl() {
    let mut db = HashMapDb::new(unbounded());
    let now: u64 = 0;
    db.set("foo", "bar".to_string(), Some(now + 10));
    assert_eq!(db.get("foo", now + 1), Some("bar".to_string()));
    assert_eq!(db.get("foo", now + 11), None);
}

#[test]
fn ttl_expiry_is_permanent() {
    let mut db = HashMapDb::new(unbounded());
    db.set("foo", "bar".to_string(), Some(5));
    assert_eq!(db.get("foo", 5), None);
    assert_eq!(db.get("foo", 7), None);
    assert_eq!(db.len(), 0);
}

#[test]
fn del_absent_key_is_ignored() {
    let mut db = HashMapDb::new(unbounded());
    db.set("foo", "bar".to_string(), None);
    db.del("nothere");
    assert_eq!(db.len(), 1);
    assert_eq!(db.get("foo", 0), Some("bar".to_string()));
}

#[test]
fn exists_key_probes() {
    let mut db = HashMapDb::new(unbounded());
    db.set("foo", "bar".to_string(), None);
    assert!(db.exists_key("foo", 0));
    assert!(!db.exists_key("nothere", 0));
}

fn persistent(every: u64) -> Engine {
    Engine {
        max_items: None,
        persistence: Some(Persistence {
            enabled: true,
            file: "unused".to_string(),
            flush_every_changes: every,
        }),
    }
}

#[test]
fn snapshot_replay() {
    let c = persistent(2);
    let mut db = HashMapDb::new(c.clone());

    // first 2 changes
    db.set("one", "one".to_string(), None);
    assert!(db.take_snapshot().is_none());
    db.set("two", "two".to_string(), None);
    let snap = db.take_snapshot().unwrap();

    let mut dd = create_db(&c, Some(snap)).unwrap();
    assert_eq!(dd.get("one", 0), Some("one".to_string()));
    assert_eq!(dd.get("two", 0), Some("two".to_string()));

    // another 2 changes
    db.del("one");
    assert!(db.take_snapshot().is_none());
    db.set("three", "three".to_string(), None);
    let snap2 = db.take_snapshot().unwrap();

    let mut d2 = create_db(&c, Some(snap2)).unwrap();
    assert_eq!(d2.get("one", 0), None);
    assert_eq!(d2.get("two", 0), Some("two".to_string()));
    assert_eq!(d2.get("three", 0), Some("three".to_string()));
}

#[test]
fn snapshot_bytes_must_decode() {
    let c = persistent(1);
    let r = create_db(&c, Some(vec![1u8, 2, 3]));
    assert!(matches!(r, Err(DbError::SnapshotDecoding)));
}

#[test]
fn create_db_without_snapshot_is_empty() {
    let mut db = create_db(&persistent(1), None).unwrap();
    assert_eq!(db.len(), 0);
    assert_eq!(db.get("anything", 0), None);
}
