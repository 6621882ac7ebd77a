use resp_kv::data_type::RespDataType;
use resp_kv::util::RespError;

/// Decodes `expected`, checks it re-encodes to the same bytes, and checks
/// that `data` encodes to those bytes as well — both directions of the
/// round-trip law on one frame.
fn assert_idempotent(data: RespDataType, expected: &str) {
    let bytes: Vec<u8> = expected.as_bytes().to_vec();
    let (value, end) = RespDataType::deserialize(&bytes, 0).unwrap();
    assert_eq!(end, bytes.len());
    assert_eq!(value.serialize(), bytes);
    assert_eq!(data.serialize(), bytes);
}

#[test]
fn test_simple_strings() {
    assert_idempotent(RespDataType::simple_strings(b"OK".to_vec()), "+OK\r\n");
}

#[test]
fn test_errors() {
    assert_idempotent(
        RespDataType::errors(b"Error message".to_vec()),
        "-Error message\r\n",
    );
    assert_idempotent(
        RespDataType::errors(b"ERR unknown command 'helloworld'".to_vec()),
        "-ERR unknown command 'helloworld'\r\n",
    );
    assert_idempotent(
        RespDataType::errors(
            b"WRONGTYPE Operation against a key holding the wrong kind of value".to_vec(),
        ),
        "-WRONGTYPE Operation against a key holding the wrong kind of value\r\n",
    );
}

#[test]
fn test_integers() {
    assert_idempotent(RespDataType::integers(-1), ":-1\r\n");
    assert_idempotent(RespDataType::integers(0), ":0\r\n");
    assert_idempotent(RespDataType::integers(1000), ":1000\r\n");
}

#[test]
fn test_bulk_strings() {
    assert_idempotent(RespDataType::bulk_strings(b"hello".to_vec()), "$5\r\nhello\r\n");
    assert_idempotent(RespDataType::bulk_strings(b"".to_vec()), "$0\r\n\r\n");
    assert_idempotent(RespDataType::empty_bulk_strings(), "$-1\r\n");
}

#[test]
fn test_arrays() {
    assert_idempotent(RespDataType::arrays(vec![]), "*0\r\n");
    assert_idempotent(
        RespDataType::arrays(vec![RespDataType::bulk_strings(b"hello".to_vec())]),
        "*1\r\n$5\r\nhello\r\n",
    );
    assert_idempotent(
        RespDataType::arrays(vec![
            RespDataType::bulk_strings(b"hello".to_vec()),
            RespDataType::bulk_strings(b"world".to_vec()),
        ]),
        "*2\r\n$5\r\nhello\r\n$5\r\nworld\r\n",
    );
    assert_idempotent(
        RespDataType::arrays(vec![
            RespDataType::integers(1),
            RespDataType::integers(2),
            RespDataType::integers(3),
        ]),
        "*3\r\n:1\r\n:2\r\n:3\r\n",
    );
    assert_idempotent(
        RespDataType::arrays(vec![
            RespDataType::integers(1),
            RespDataType::integers(2),
            RespDataType::integers(3),
            RespDataType::integers(4),
            RespDataType::bulk_strings(b"hello".to_vec()),
        ]),
        "*5\r\n:1\r\n:2\r\n:3\r\n:4\r\n$5\r\nhello\r\n",
    );
    assert_idempotent(RespDataType::empty_arrays(), "*-1\r\n");
    assert_idempotent(
        RespDataType::arrays(vec![
            RespDataType::arrays(vec![
                RespDataType::integers(1),
                RespDataType::integers(2),
                RespDataType::integers(3),
            ]),
            RespDataType::arrays(vec![
                RespDataType::simple_strings(b"Hello".to_vec()),
                RespDataType::errors(b"World".to_vec()),
            ]),
        ]),
        "*2\r\n*3\r\n:1\r\n:2\r\n:3\r\n*2\r\n+Hello\r\n-World\r\n",
    );
}

#[test]
fn integer_extremes_round_trip() {
    assert_idempotent(
        RespDataType::integers(i64::MAX),
        ":9223372036854775807\r\n",
    );
    assert_idempotent(
        RespDataType::integers(i64::MIN),
        ":-9223372036854775808\r\n",
    );
}

#[test]
fn integer_line_accepts_sign_and_leading_zeros() {
    let bytes = b":+5\r\n".to_vec();
    let (value, end) = RespDataType::deserialize(&bytes, 0).unwrap();
    assert_eq!(end, bytes.len());
    assert_eq!(value.serialize(), b":5\r\n".to_vec());

    let bytes = b":007\r\n".to_vec();
    let (value, _) = RespDataType::deserialize(&bytes, 0).unwrap();
    assert_eq!(value.serialize(), b":7\r\n".to_vec());
}

#[test]
fn integer_overflow_is_rejected() {
    let bytes = b":9223372036854775808\r\n".to_vec();
    assert_eq!(
        RespDataType::deserialize(&bytes, 0).unwrap_err(),
        RespError::BadInteger
    );
}

#[test]
fn unknown_tag_is_rejected() {
    let bytes = b"@oops\r\n".to_vec();
    assert_eq!(
        RespDataType::deserialize(&bytes, 0).unwrap_err(),
        RespError::UnknownTag
    );
}

#[test]
fn bad_integer_line_is_rejected() {
    let bytes = b":12a\r\n".to_vec();
    assert_eq!(
        RespDataType::deserialize(&bytes, 0).unwrap_err(),
        RespError::BadInteger
    );
    let bytes = b":\r\n".to_vec();
    assert_eq!(
        RespDataType::deserialize(&bytes, 0).unwrap_err(),
        RespError::BadInteger
    );
}

#[test]
fn negative_length_other_than_null_is_rejected() {
    let bytes = b"$-2\r\n".to_vec();
    assert_eq!(
        RespDataType::deserialize(&bytes, 0).unwrap_err(),
        RespError::BadLength
    );
    let bytes = b"*-7\r\n".to_vec();
    assert_eq!(
        RespDataType::deserialize(&bytes, 0).unwrap_err(),
        RespError::BadLength
    );
}

#[test]
fn bulk_payload_without_terminator_is_rejected() {
    let bytes = b"$2\r\nabXY".to_vec();
    assert_eq!(
        RespDataType::deserialize(&bytes, 0).unwrap_err(),
        RespError::ExpectedCrlf
    );
}

#[test]
fn truncated_frames_are_incomplete() {
    for req in [
        &b""[..],
        b"$",
        b"$5\r\nab",
        b"$5\r\nhello",
        b"+OK",
        b"*2\r\n:1\r\n",
        b":12",
    ] {
        let bytes = req.to_vec();
        assert_eq!(
            RespDataType::deserialize(&bytes, 0).unwrap_err(),
            RespError::Incomplete,
            "for {:?}",
            req
        );
    }
}

#[test]
fn deserialize_reads_one_value_and_reports_its_end() {
    let bytes = b"+one\r\n+two\r\n".to_vec();
    let (value, end) = RespDataType::deserialize(&bytes, 0).unwrap();
    assert_eq!(value.serialize(), b"+one\r\n".to_vec());
    assert_eq!(end, 6);
    let (value, end) = RespDataType::deserialize(&bytes, end).unwrap();
    assert_eq!(value.serialize(), b"+two\r\n".to_vec());
    assert_eq!(end, bytes.len());
}

#[test]
fn lines_may_end_with_lone_line_feed() {
    let bytes = b"+OK\n".to_vec();
    let (value, end) = RespDataType::deserialize(&bytes, 0).unwrap();
    assert_eq!(end, bytes.len());
    assert_eq!(value.serialize(), b"+OK\r\n".to_vec());
}
