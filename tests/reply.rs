use redis_clone::{decimal_string, encode_as_array, encode_error, encode_simple_string};

#[test]
fn error_reply_format() {
    assert_eq!(encode_error("boom"), "-ERR boom\r\n");
    assert_eq!(encode_error(""), "-ERR \r\n");
}

#[test]
fn simple_reply_format() {
    assert_eq!(encode_simple_string("OK"), "+OK\r\n");
    assert_eq!(encode_simple_string("(nil)"), "+(nil)\r\n");
}

#[test]
fn array_of_words() {
    assert_eq!(
        encode_as_array("SET CAR vroom"),
        "*3\r\n$3\r\nSET\r\n$3\r\nCAR\r\n$5\r\nvroom\r\n"
    );
    assert_eq!(encode_as_array("  a \t\r\n bc  "), "*2\r\n$1\r\na\r\n$2\r\nbc\r\n");
    assert_eq!(encode_as_array(""), "*0\r\n");
    assert_eq!(encode_as_array("   "), "*0\r\n");
}

#[test]
fn array_counts_bytes_not_characters() {
    assert_eq!(encode_as_array("\u{e9}t\u{e9}"), "*1\r\n$5\r\n\u{e9}t\u{e9}\r\n");
}

#[test]
fn array_with_many_words() {
    let msg = "a b c d e f g h i j k l";
    let r = encode_as_array(msg);
    assert!(r.starts_with("*12\r\n$1\r\na\r\n"));
}

#[test]
fn decimal_notation() {
    assert_eq!(decimal_string(0), "0");
    assert_eq!(decimal_string(7), "7");
    assert_eq!(decimal_string(10), "10");
    assert_eq!(decimal_string(1234567890), "1234567890");
    assert_eq!(decimal_string(usize::MAX), usize::MAX.to_string());
}
