use redis_clone::frame::{failure_reply, parse_bulk_string, parse_stream, RespError};

#[test]
fn test_parse_string() {
    let input = b"$5\r\nHello\r\n";
    let (result, next) = parse_bulk_string(&input[..], 0, true).unwrap();
    assert_eq!(result, "Hello");
    assert_eq!(next, input.len());
}

#[test]
fn test_empty_string() {
    let input = b"";
    let result = parse_bulk_string(&input[..], 0, true);
    assert!(matches!(result, Err(RespError::ConnectionClosed)));
}

#[test]
fn test_invalid_string_prefix() {
    let input = b":\r\nHello\r\n";
    let result = parse_bulk_string(&input[..], 0, true);
    match result {
        Err(RespError::InvalidProtocol(msg)) => {
            assert_eq!(msg, "Expected '$', got ':'");
        }
        _ => panic!("Expected InvalidProtocol error, got {:?}", result),
    }
}

#[test]
fn test_invalid_string_number() {
    let input = b"$abc\r\nHello\r\n";
    let result = parse_bulk_string(&input[..], 0, true);
    match result {
        Err(RespError::InvalidProtocol(msg)) => {
            assert_eq!(msg, "Invalid bulk string length: 'abc'");
        }
        _ => panic!("Exptected InvalidProtocol error"),
    }
}

#[test]
fn test_invalid_utf8_string() {
    let input = b"$1\r\n\xFF\r\n";
    let result = parse_bulk_string(&input[..], 0, true);
    assert!(matches!(result, Err(RespError::Utf8(_))))
}

#[test]
fn test_io_error_unexpected_eof() {
    let input = b"$5\r\nHi";
    let result = parse_bulk_string(&input[..], 0, true);
    assert!(matches!(result, Err(RespError::Io(_))));
}

#[test]
fn test_parse_bulk_string() {
    let input = b"*2\r\n$5\r\nHello\r\n$5\r\nWorld\r\n";
    let (result, used) = parse_stream(&input[..], true).unwrap();
    assert_eq!(result, Vec::from(["Hello", "World"]));
    assert_eq!(used, input.len());
}

#[test]
fn empty_stream_is_closed() {
    let result = parse_stream(b"", true);
    assert!(matches!(result, Err(RespError::ConnectionClosed)));
}

#[test]
fn empty_buffer_waits_for_more() {
    let result = parse_stream(b"", false);
    assert!(matches!(result, Err(RespError::Incomplete)));
}

#[test]
fn partial_frame_waits_for_more() {
    let input = b"*2\r\n$5\r\nHello\r\n$5\r\nWor";
    assert!(matches!(parse_stream(&input[..], false), Err(RespError::Incomplete)));
    assert!(matches!(parse_stream(&input[..], true), Err(RespError::Io(_))));
    let header_only = b"*2";
    assert!(matches!(parse_stream(&header_only[..], false), Err(RespError::Incomplete)));
}

#[test]
fn set_scenario_frame() {
    let input = b"*3\r\n$3\r\nSET\r\n$3\r\nCAR\r\n$11\r\nvroom vroom\r\n";
    let (args, used) = parse_stream(&input[..], false).unwrap();
    assert_eq!(args, vec!["SET", "CAR", "vroom vroom"]);
    assert_eq!(used, input.len());
}

#[test]
fn payload_holding_markers_is_read_verbatim() {
    let input = b"*2\r\n$3\r\nGET\r\n$10\r\n*3\r\n$3\r\nA\n\r\n*1\r\n";
    let (args, used) = parse_stream(&input[..], false).unwrap();
    assert_eq!(args, vec!["GET", "*3\r\n$3\r\nA\n"]);
    assert_eq!(used, input.len() - 4);
}

#[test]
fn empty_payload_round_trips() {
    let input = b"*1\r\n$0\r\n\r\n";
    let (args, used) = parse_stream(&input[..], true).unwrap();
    assert_eq!(args, vec![""]);
    assert_eq!(used, input.len());
}

#[test]
fn zero_arguments_decode_to_empty_command() {
    let (args, used) = parse_stream(b"*0\r\n", true).unwrap();
    assert!(args.is_empty());
    assert_eq!(used, 4);
}

#[test]
fn two_commands_in_one_buffer() {
    let input = b"*1\r\n$1\r\na\r\n*1\r\n$1\r\nb\r\n";
    let (first, used) = parse_stream(&input[..], false).unwrap();
    assert_eq!(first, vec!["a"]);
    let (second, rest) = parse_stream(&input[used..], false).unwrap();
    assert_eq!(second, vec!["b"]);
    assert_eq!(used + rest, input.len());
}

#[test]
fn bulk_string_at_offset() {
    let input = b"xx$2\r\nok\r\n";
    let (s, next) = parse_bulk_string(&input[..], 2, true).unwrap();
    assert_eq!(s, "ok");
    assert_eq!(next, input.len());
}

#[test]
fn array_header_errors() {
    match parse_stream(b"$2\r\n", true) {
        Err(RespError::InvalidProtocol(msg)) => assert_eq!(msg, "Expected '*', got '$2'"),
        other => panic!("unexpected {:?}", other),
    }
    match parse_stream(b"* x1 \r\n", true) {
        Err(RespError::InvalidProtocol(msg)) => assert_eq!(msg, "Invalid array length: ' x1 '"),
        other => panic!("unexpected {:?}", other),
    }
    match parse_stream(b"*99999999999999999999999\r\n", true) {
        Err(RespError::InvalidProtocol(msg)) => {
            assert_eq!(msg, "Invalid array length: '99999999999999999999999'")
        }
        other => panic!("unexpected {:?}", other),
    }
}

#[test]
fn array_count_must_be_bare_digits() {
    match parse_stream(b"*0 \r\n", true) {
        Err(RespError::InvalidProtocol(msg)) => assert_eq!(msg, "Invalid array length: '0 '"),
        other => panic!("unexpected {:?}", other),
    }
    match parse_stream(b"* 1\r\n$2\r\nhi\r\n", true) {
        Err(RespError::InvalidProtocol(msg)) => assert_eq!(msg, "Invalid array length: ' 1'"),
        other => panic!("unexpected {:?}", other),
    }
    match parse_stream(b"*\r\n", true) {
        Err(RespError::InvalidProtocol(msg)) => assert_eq!(msg, "Invalid array length: ''"),
        other => panic!("unexpected {:?}", other),
    }
    match parse_stream(b"*0\n", true) {
        Err(RespError::InvalidProtocol(msg)) => {
            assert_eq!(msg, "Expected the header line to end with CR LF")
        }
        other => panic!("unexpected {:?}", other),
    }
    match parse_stream(b"+3\r\n", true) {
        Err(RespError::InvalidProtocol(msg)) => assert_eq!(msg, "Expected '*', got '+3'"),
        other => panic!("unexpected {:?}", other),
    }
}

#[test]
fn bulk_count_must_be_bare_digits() {
    match parse_stream(b"*1\r\n$ 2 \r\nhi\r\n", true) {
        Err(RespError::InvalidProtocol(msg)) => {
            assert_eq!(msg, "Invalid bulk string length: ' 2 '")
        }
        other => panic!("unexpected {:?}", other),
    }
    match parse_bulk_string(b"$2\nhi\r\n", 0, true) {
        Err(RespError::InvalidProtocol(msg)) => {
            assert_eq!(msg, "Expected the header line to end with CR LF")
        }
        other => panic!("unexpected {:?}", other),
    }
}

#[test]
fn wrong_marker_is_reported_before_the_line_ends() {
    for at_end in [true, false] {
        match parse_stream(b"+3", at_end) {
            Err(RespError::InvalidProtocol(msg)) => assert_eq!(msg, "Expected '*', got '+3'"),
            other => panic!("unexpected {:?}", other),
        }
        match parse_bulk_string(b":1", 0, at_end) {
            Err(RespError::InvalidProtocol(msg)) => assert_eq!(msg, "Expected '$', got ':1'"),
            other => panic!("unexpected {:?}", other),
        }
    }
}

#[test]
fn command_cut_after_an_element_is_transport_failure() {
    let input = b"*2\r\n$1\r\na\r\n";
    assert!(matches!(parse_stream(&input[..], true), Err(RespError::Io(_))));
    assert!(matches!(parse_stream(&input[..], false), Err(RespError::Incomplete)));
}

#[test]
fn failure_replies() {
    assert_eq!(
        failure_reply(&RespError::InvalidProtocol("bad".to_string())),
        Some("-ERR Protocol Error: bad\r\n".to_string())
    );
    assert_eq!(
        failure_reply(&RespError::Utf8(vec![0xFF])),
        Some("-ERR UTF-8 Error: invalid UTF-8 in request\r\n".to_string())
    );
    assert_eq!(failure_reply(&RespError::Io("gone".to_string())), None);
    assert_eq!(failure_reply(&RespError::ConnectionClosed), None);
    assert_eq!(failure_reply(&RespError::Incomplete), None);
}

#[test]
fn error_messages() {
    assert_eq!(RespError::ConnectionClosed.message(), "Connection closed by peer");
    assert_eq!(
        RespError::InvalidProtocol("bad".to_string()).message(),
        "Protocol Error: bad"
    );
    assert_eq!(RespError::Io("gone".to_string()).message(), "IO Error: gone");
    assert_eq!(
        RespError::Utf8(vec![0xFF]).message(),
        "UTF-8 Error: invalid UTF-8 in request"
    );
    assert_eq!(RespError::Incomplete.message(), "Incomplete frame");
}

#[test]
fn header_line_not_text_is_utf8_error() {
    let result = parse_stream(b"\xFF\r\n", true);
    match result {
        Err(RespError::Utf8(bytes)) => assert_eq!(bytes, vec![0xFFu8]),
        other => panic!("unexpected {:?}", other),
    }
}

#[test]
fn multibyte_payload_decodes() {
    let input = "*1\r\n$5\r\nh\u{e9}\u{e9}\r\n".as_bytes();
    let (args, used) = parse_stream(input, true).unwrap();
    assert_eq!(args, vec!["h\u{e9}\u{e9}"]);
    assert_eq!(used, input.len());
}
