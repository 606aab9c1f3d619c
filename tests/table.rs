use std::sync::RwLock;

use redis_clone::encode_simple_string;
use redis_clone::handler::{execute, Request};
use redis_clone::table::Table;

const TEST_STRING: [&str; 2] = ["Currency", "Euro"];

#[test]
fn set_string() {
    let mut table = Table::new();
    let result = table.set(String::from(TEST_STRING[0]), String::from(TEST_STRING[1]));

    assert_eq!(encode_simple_string("OK"), result);
}

#[test]
fn set_get_string() {
    let mut table = Table::new();
    let set_result = table.set(String::from(TEST_STRING[0]), String::from(TEST_STRING[1]));
    let get_result = table.get(String::from(TEST_STRING[0]));

    assert_eq!(get_result, String::from(TEST_STRING[1]));
    assert_eq!(encode_simple_string("OK"), set_result);
}

#[test]
fn get_of_missing_key_is_nil() {
    let table = Table::new();
    assert_eq!(table.get("none".to_string()), "+(nil)\r\n");
    assert_eq!(table.len(), 0);
}

#[test]
fn execute_applies_request() {
    let mut table = Table::new();
    let r = execute(Request::SetKey("a".to_string(), "1".to_string()), &mut table);
    assert_eq!(r, "+OK\r\n");
    assert_eq!(execute(Request::Get("a".to_string()), &mut table), "1");
}

#[test]
fn many_distinct_keys_all_visible() {
    let table = RwLock::new(Table::new());

    const WRITERS: usize = 10;
    const INSERTS_PER_WRITER: usize = 100;
    for i in 0..INSERTS_PER_WRITER {
        for writer in 0..WRITERS {
            let key = format!("key_{}_{}", writer, i);
            let val = format!("val_{}_{}", writer, i);
            table.write().unwrap().set(key, val);
        }
    }
    let cache = table.read().unwrap();
    assert_eq!(cache.len(), WRITERS * INSERTS_PER_WRITER);
    for writer in 0..WRITERS {
        for i in 0..INSERTS_PER_WRITER {
            let key = format!("key_{}_{}", writer, i);
            assert_eq!(cache.get(key), format!("val_{}_{}", writer, i));
        }
    }
}
