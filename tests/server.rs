use my_mini_redis::command::Command;
use my_mini_redis::frame::Frame;
use my_mini_redis::server::{dispatch, lock_error_reply, MiniRedisServer};
use my_mini_redis::store::Store;

#[test]
fn it_works() {
    assert_eq!(2 + 2, 4);
}

fn get(key: &str) -> Command {
    Command::Get { key: key.to_string() }
}

fn set(key: &str, value: &[u8]) -> Command {
    Command::SetValue { key: key.to_string(), value: value.to_vec() }
}

#[test]
fn new_server_keeps_address() {
    let server = MiniRedisServer::new("127.0.0.1:6379".to_string());
    assert_eq!(server.addr, "127.0.0.1:6379");
    let store = server.db.lock().unwrap();
    assert_eq!(store.get(&"k".to_string()), None);
}

#[test]
fn set_then_get_returns_value() {
    let mut store = Store::new();
    assert_eq!(dispatch(set("k", b"v"), &mut store), Frame::Simple("OK".to_string()));
    assert_eq!(dispatch(get("k"), &mut store), Frame::Bulk(b"v".to_vec()));
}

#[test]
fn get_of_missing_key_is_null() {
    let mut store = Store::new();
    assert_eq!(dispatch(get("missing"), &mut store), Frame::Null);
    dispatch(set("k", b"v"), &mut store);
    assert_eq!(dispatch(get("other"), &mut store), Frame::Null);
}

#[test]
fn later_set_overwrites() {
    let mut store = Store::new();
    dispatch(set("k", b"v1"), &mut store);
    dispatch(set("k", b"v2"), &mut store);
    assert_eq!(dispatch(get("k"), &mut store), Frame::Bulk(b"v2".to_vec()));
    assert_eq!(store.get(&"k".to_string()), Some(b"v2".to_vec()));
}

#[test]
fn interleaved_sets_on_distinct_keys_are_all_kept() {
    let mut store = Store::new();
    let n = 50;
    // Sets in one order, gets in another, interleaved with reads of keys not yet set.
    for i in (0..n).rev() {
        let key = format!("key{}", i);
        dispatch(get(&format!("key{}", (i + 1) % n)), &mut store);
        dispatch(set(&key, format!("value{}", i).as_bytes()), &mut store);
    }
    for i in 0..n {
        let reply = dispatch(get(&format!("key{}", i)), &mut store);
        assert_eq!(reply, Frame::Bulk(format!("value{}", i).into_bytes()));
    }
}

#[test]
fn empty_key_and_value_are_stored() {
    let mut store = Store::new();
    dispatch(set("", b""), &mut store);
    assert_eq!(dispatch(get(""), &mut store), Frame::Bulk(Vec::new()));
}

#[test]
fn lock_error_reply_text() {
    assert_eq!(lock_error_reply(), Frame::Error("lock error".to_string()));
}

#[test]
fn default_bind_address() {
    let args = my_mini_redis::args_parser::ArgsParser::default();
    assert_eq!(args.ip, "127.0.0.1");
    assert_eq!(args.port, 6379);
}
