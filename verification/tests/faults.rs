//! Malformed, truncated and over-nested inputs: each yields a structured
//! failure with the offset of the fault, never a panic or a partial value.

use respirator::{resp, DecodeError};

#[test]
fn rejects_corrupted_simple_string() {
    // a carriage return at the end of the input, with no line feed after it
    let corrupted_input = &b"+OK - seems bad.\r"[..];
    let err = resp(corrupted_input, 0, 8).unwrap_err();
    assert_eq!(err, DecodeError::MissingTerminator { offset: 16 });
}

#[test]
fn rejects_corrupted_integer() {
    let corrupted_input = &b":OK - seems bad.\r\n"[..];
    let err = resp(corrupted_input, 0, 8).unwrap_err();
    assert_eq!(err, DecodeError::InvalidIntegerLiteral { offset: 1 });
}

#[test]
fn rejects_corrupted_error() {
    // a bare line feed without the carriage return before it
    let corrupted_input = &b"-an error - seems bad.\n"[..];
    let err = resp(corrupted_input, 0, 8).unwrap_err();
    assert_eq!(err, DecodeError::MissingTerminator { offset: 22 });
}

#[test]
fn rejects_bulk_string_without_terminator() {
    // four bytes are declared and present, but no terminator follows them
    let corrupted_input = &b"$4\r\nbad\r\n"[..];
    let err = resp(corrupted_input, 0, 8).unwrap_err();
    assert_eq!(err, DecodeError::MissingTerminator { offset: 8 });
}

#[test]
fn rejects_truncated_bulk_string() {
    // four bytes are declared but only two remain
    let corrupted_input = &b"$4\r\nab"[..];
    let err = resp(corrupted_input, 0, 8).unwrap_err();
    assert_eq!(err, DecodeError::TruncatedPayload { offset: 4 });
}

#[test]
fn rejects_unknown_marker() {
    let err = resp(&b"?hello\r\n"[..], 0, 8).unwrap_err();
    assert_eq!(err, DecodeError::UnknownMarker { marker: b'?', offset: 0 });
}

#[test]
fn reports_unknown_marker_offset_inside_array() {
    // the offending byte sits past the array header, at offset 4
    let err = resp(&b"*1\r\n?no\r\n"[..], 0, 8).unwrap_err();
    assert_eq!(err, DecodeError::UnknownMarker { marker: b'?', offset: 4 });
}

#[test]
fn rejects_empty_input() {
    let err = resp(&b""[..], 0, 8).unwrap_err();
    assert_eq!(err, DecodeError::TruncatedPayload { offset: 0 });
}

#[test]
fn rejects_integer_overflow() {
    let err = resp(&b":9223372036854775808\r\n"[..], 0, 8).unwrap_err();
    assert_eq!(err, DecodeError::InvalidIntegerLiteral { offset: 1 });
    let err = resp(&b":-9223372036854775809\r\n"[..], 0, 8).unwrap_err();
    assert_eq!(err, DecodeError::InvalidIntegerLiteral { offset: 1 });
}

#[test]
fn rejects_signed_or_empty_length() {
    let err = resp(&b"$-1\r\n"[..], 0, 8).unwrap_err();
    assert_eq!(err, DecodeError::InvalidIntegerLiteral { offset: 1 });
    let err = resp(&b"*\r\n"[..], 0, 8).unwrap_err();
    assert_eq!(err, DecodeError::InvalidIntegerLiteral { offset: 1 });
}

#[test]
fn nesting_at_the_limit_succeeds() {
    // two levels of arrays with a budget of two
    let input = &b"*1\r\n*1\r\n:5\r\n"[..];
    let (_, pos) = resp(input, 0, 2).unwrap();
    assert_eq!(pos, input.len());
}

#[test]
fn nesting_beyond_the_limit_is_too_deep() {
    // three levels of arrays with a budget of two
    let input = &b"*1\r\n*1\r\n*1\r\n:5\r\n"[..];
    let err = resp(input, 0, 2).unwrap_err();
    assert_eq!(err, DecodeError::NestingTooDeep { offset: 12 });
}

#[test]
fn array_failure_yields_no_partial_value() {
    // the second of two declared elements is truncated
    let input = &b"*2\r\n:1\r\n$3\r\nab"[..];
    let err = resp(input, 0, 8).unwrap_err();
    assert_eq!(err, DecodeError::TruncatedPayload { offset: 12 });
}
