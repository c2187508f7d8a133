use umd::commands::{Command, CommandResponse};
use umd::config::Engine;
use umd::db::HashMapDb;
use umd::executor::execute_command;

fn empty_db() -> HashMapDb {
    HashMapDb::new(Engine { max_items: None, persistence: None })
}

#[test]
fn exec_get() {
    let mut db = empty_db();
    db.set("key", "value".to_string(), None);

    let cmd = Command::Get { key: "key".to_string() };
    let res = execute_command(cmd, &mut db, 0);
    assert_eq!(res, CommandResponse::String { value: "value".to_owned() });
}

#[test]
fn exec_get_absent() {
    let mut db = empty_db();
    let cmd = Command::Get { key: "key".to_string() };
    let res = execute_command(cmd, &mut db, 0);
    assert_eq!(res, CommandResponse::String { value: "not found".to_owned() });
}

#[test]
fn exec_exists() {
    let mut db = empty_db();
    db.set("key", "value".to_string(), None);

    let cmd = Command::Exists { key: "key".to_string() };
    let res = execute_command(cmd, &mut db, 0);
    assert_eq!(res, CommandResponse::Integer { value: 1 });
}

#[test]
fn exec_incr() {
    let mut db = empty_db();

    // incr with no key
    let cmd = Command::Incr { key: "key".to_string() };

    let res = execute_command(cmd, &mut db, 0);
    assert_eq!(res, CommandResponse::String { value: "OK".to_owned() });

    let v = db.get("key", 0).unwrap().parse::<u64>().unwrap();
    assert_eq!(v, 1);

    // incr with key
    let cmd = Command::Incr { key: "key".to_string() };
    let res = execute_command(cmd, &mut db, 0);
    assert_eq!(res, CommandResponse::String { value: "OK".to_owned() });

    let v = db.get("key", 0).unwrap().parse::<u64>().unwrap();
    assert_eq!(v, 2);
}

#[test]
fn exec_incr_non_numeric() {
    let mut db = empty_db();
    db.set("key", "pear".to_string(), None);

    let cmd = Command::Incr { key: "key".to_string() };
    let res = execute_command(cmd, &mut db, 0);
    assert_eq!(res, CommandResponse::Error { value: "value is not an integer".to_owned() });
    assert_eq!(db.get("key", 0), Some("pear".to_string()));
}

#[test]
fn exec_incr_overflow() {
    let mut db = empty_db();
    db.set("key", "18446744073709551615".to_string(), None);

    let cmd = Command::Incr { key: "key".to_string() };
    let res = execute_command(cmd, &mut db, 0);
    assert_eq!(res, CommandResponse::Error { value: "value is not an integer".to_owned() });
}

#[test]
fn exec_set_with_ttl() {
    let mut db = empty_db();
    let cmd = Command::SetValue { key: "foo".to_string(), value: "bar".to_string(), ttl: Some(10) };
    let res = execute_command(cmd, &mut db, 0);
    assert_eq!(res, CommandResponse::String { value: "OK".to_owned() });

    assert_eq!(db.get("foo", 1), Some("bar".to_string()));
    assert_eq!(db.get("foo", 11), None);
}

#[test]
fn exec_del_and_flush() {
    let mut db = empty_db();
    db.set("a", "1".to_string(), None);
    db.set("b", "2".to_string(), None);

    let res = execute_command(Command::Del { key: "a".to_string() }, &mut db, 0);
    assert_eq!(res, CommandResponse::String { value: "OK".to_owned() });
    assert_eq!(db.get("a", 0), None);

    let res = execute_command(Command::FlushDb, &mut db, 0);
    assert_eq!(res, CommandResponse::String { value: "OK".to_owned() });
    assert_eq!(db.get("b", 0), None);
}

#[test]
fn exec_ping_config_docs() {
    let mut db = empty_db();
    assert_eq!(
        execute_command(Command::Ping, &mut db, 0),
        CommandResponse::String { value: "PONG".to_owned() }
    );
    assert_eq!(
        execute_command(Command::Config, &mut db, 0),
        CommandResponse::String { value: "OK".to_owned() }
    );
    assert_eq!(
        execute_command(Command::Docs, &mut db, 0),
        CommandResponse::Array { value: Vec::new() }
    );
}
