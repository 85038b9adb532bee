use kvserver::store::{dispatch, KvStore};
use kvserver::wire::{Command, DelCmd, GetCmd, ResponseCode, SetCmd};

fn get(kv: &mut KvStore, key: &str) -> (ResponseCode, String) {
    dispatch(&Command::Get(GetCmd { key }), kv)
}

fn set(kv: &mut KvStore, key: &str, value: &str) -> (ResponseCode, String) {
    dispatch(&Command::Put(SetCmd { key, value }), kv)
}

fn del(kv: &mut KvStore, key: &str) -> (ResponseCode, String) {
    dispatch(&Command::Del(DelCmd { key }), kv)
}

#[test]
fn end_to_end_store_scenario() {
    let mut kv = KvStore::new();
    assert_eq!(set(&mut kv, "a", "1"), (ResponseCode::Success, String::new()));
    assert_eq!(get(&mut kv, "a"), (ResponseCode::Success, "1".to_string()));
    assert_eq!(get(&mut kv, "b"), (ResponseCode::Nonexistent, String::new()));
    assert_eq!(del(&mut kv, "a"), (ResponseCode::Success, String::new()));
    assert_eq!(get(&mut kv, "a"), (ResponseCode::Nonexistent, String::new()));
}

#[test]
fn repeated_delete_succeeds() {
    let mut kv = KvStore::new();
    assert_eq!(del(&mut kv, "k").0, ResponseCode::Success);
    assert_eq!(del(&mut kv, "k").0, ResponseCode::Success);
    set(&mut kv, "k", "v");
    assert_eq!(del(&mut kv, "k").0, ResponseCode::Success);
    assert_eq!(del(&mut kv, "k").0, ResponseCode::Success);
    assert_eq!(get(&mut kv, "k").0, ResponseCode::Nonexistent);
}

#[test]
fn last_write_wins() {
    let mut kv = KvStore::new();
    set(&mut kv, "k", "v1");
    set(&mut kv, "k", "v2");
    assert_eq!(get(&mut kv, "k"), (ResponseCode::Success, "v2".to_string()));
}

#[test]
fn keys_are_independent() {
    let mut kv = KvStore::new();
    set(&mut kv, "x", "1");
    set(&mut kv, "y", "2");
    set(&mut kv, "z", "3");
    del(&mut kv, "y");
    assert_eq!(get(&mut kv, "x").1, "1");
    assert_eq!(get(&mut kv, "y").0, ResponseCode::Nonexistent);
    assert_eq!(get(&mut kv, "z").1, "3");
    assert_eq!(kv.get("x"), Some(&"1".to_string()));
}
