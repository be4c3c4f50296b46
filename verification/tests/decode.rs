//! Decoding well-formed units of every shape, and pipelined buffers.

use respirator::{resp, Resp};

#[test]
fn parses_simple_strings() {
    let input = &b"+OK - seems good.\r\n"[..];
    let parsed = resp(input, 0, 8).unwrap();
    if let Resp::SimpleString(parsed) = parsed.0 {
        assert_eq!(parsed, b"OK - seems good.".to_vec());
    } else {
        panic!("Error parsing SimpleString");
    }
}

#[test]
fn parses_integers() {
    let input = &b":12345\r\n"[..];
    let parsed = resp(input, 0, 8).unwrap();
    if let Resp::Integer(parsed) = parsed.0 {
        assert_eq!(parsed, 12345);
    } else {
        panic!("Error parsing Integer");
    }
}

#[test]
fn parses_errors() {
    let input = &b"-this is an error\r\n"[..];
    let parsed = resp(input, 0, 8).unwrap();
    if let Resp::Error(parsed) = parsed.0 {
        assert_eq!(parsed, b"this is an error".to_vec());
    } else {
        panic!("Error parsing Error");
    }
}

#[test]
fn parses_bulk_string() {
    let input = &b"$4\r\ngood\r\n"[..];
    let parsed = resp(input, 0, 8).unwrap();
    if let Resp::BulkString(Some(parsed)) = parsed.0 {
        assert_eq!(parsed, b"good".to_vec());
    } else {
        panic!("Error parsing BulkString");
    }
}

#[test]
fn parses_array() {
    let input = &b"*2\r\n$2\r\nOK\r\n$4\r\nResp\r\n"[..];
    let parsed = resp(input, 0, 8).unwrap();

    if let Resp::Array(Some(parsed)) = parsed.0 {
        if let [Resp::BulkString(Some(str1)), Resp::BulkString(Some(str2))] = &parsed[..] {
            assert_eq!(*str1, b"OK".to_vec());
            assert_eq!(*str2, b"Resp".to_vec());
        } else {
            panic!("Error parsing Array");
        }
    } else {
        panic!("Error parsing Array");
    }
}

#[test]
fn parses_empty_array() {
    let input = &b"*0\r\n"[..];
    let parsed = resp(input, 0, 8).unwrap();

    if let Resp::Array(None) = parsed.0 {
    } else {
        panic!("Error parsing Array");
    }
}

#[test]
fn parses_multiple() {
    let input = &b"$4\r\ngood\r\n:8\r\n+OK\r\n"[..];

    let (parsed, pos) = resp(input, 0, 8).unwrap();
    if let Resp::BulkString(Some(parsed)) = parsed {
        assert_eq!(parsed, b"good".to_vec());
    } else {
        panic!("Error parsing BulkString");
    }

    let (parsed, pos) = resp(input, pos, 8).unwrap();
    if let Resp::Integer(parsed) = parsed {
        assert_eq!(parsed, 8);
    } else {
        panic!("Error parsing Integer");
    }

    let (parsed, pos) = resp(input, pos, 8).unwrap();
    if let Resp::SimpleString(parsed) = parsed {
        assert_eq!(parsed, b"OK".to_vec());
    } else {
        panic!("Error parsing SimpleString");
    }

    assert_eq!(pos, input.len());
}

#[test]
fn parses_empty_bulk_string() {
    let input = &b"$0\r\nrest"[..];
    let (parsed, pos) = resp(input, 0, 8).unwrap();
    assert!(matches!(parsed, Resp::BulkString(None)));
    assert_eq!(pos, 4);
}

#[test]
fn empty_array_consumes_only_length_line() {
    let input = &b"*0\r\n:7\r\n"[..];
    let (parsed, pos) = resp(input, 0, 8).unwrap();
    assert!(matches!(parsed, Resp::Array(None)));
    assert_eq!(pos, 4);
}

#[test]
fn parses_binary_safe_bulk_string() {
    // the payload holds a full terminator pair of its own
    let input = &b"$4\r\na\r\nb\r\n"[..];
    let (parsed, pos) = resp(input, 0, 8).unwrap();
    if let Resp::BulkString(Some(parsed)) = parsed {
        assert_eq!(parsed, b"a\r\nb".to_vec());
    } else {
        panic!("Error parsing BulkString");
    }
    assert_eq!(pos, input.len());
}

#[test]
fn parses_signed_integers() {
    let (parsed, _) = resp(&b":-42\r\n"[..], 0, 8).unwrap();
    assert!(matches!(parsed, Resp::Integer(-42)));
    let (parsed, _) = resp(&b":+8\r\n"[..], 0, 8).unwrap();
    assert!(matches!(parsed, Resp::Integer(8)));
}

#[test]
fn parses_integer_limits() {
    let (parsed, _) = resp(&b":9223372036854775807\r\n"[..], 0, 8).unwrap();
    assert!(matches!(parsed, Resp::Integer(i64::MAX)));
    let (parsed, _) = resp(&b":-9223372036854775808\r\n"[..], 0, 8).unwrap();
    assert!(matches!(parsed, Resp::Integer(i64::MIN)));
}

#[test]
fn parses_empty_simple_string() {
    let (parsed, pos) = resp(&b"+\r\n"[..], 0, 8).unwrap();
    if let Resp::SimpleString(parsed) = parsed {
        assert_eq!(parsed, Vec::<u8>::new());
    } else {
        panic!("Error parsing SimpleString");
    }
    assert_eq!(pos, 3);
}

#[test]
fn parses_nested_array() {
    let input = &b"*2\r\n*1\r\n:1\r\n+ok\r\n"[..];
    let (parsed, pos) = resp(input, 0, 8).unwrap();
    if let Resp::Array(Some(items)) = parsed {
        assert_eq!(items.len(), 2);
        if let Resp::Array(Some(inner)) = &items[0] {
            assert!(matches!(inner[0], Resp::Integer(1)));
        } else {
            panic!("Error parsing inner Array");
        }
        if let Resp::SimpleString(s) = &items[1] {
            assert_eq!(*s, b"ok".to_vec());
        } else {
            panic!("Error parsing SimpleString");
        }
    } else {
        panic!("Error parsing Array");
    }
    assert_eq!(pos, input.len());
}
