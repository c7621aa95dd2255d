use resp_codec::parser::{Parser, ParserCursor, Resp};
use resp_codec::wire::{DecodeError, EncodeError};

#[test]
fn deserialize_simple_string() {
    let test = b"+OK\r\n";
    let expected = Ok(Resp::SimpStr(b"OK".to_vec()));
    assert_eq!(Parser::deserialize(test), expected);
}

#[test]
fn deserialize_error() {
    let test = b"-ERR something bad\r\n";
    let expected = Ok(Resp::Error(b"ERR something bad".to_vec()));
    assert_eq!(Parser::deserialize(test), expected);
}

#[test]
fn deserialize_integer() {
    let test = b":42\r\n";
    let expected = Ok(Resp::Int(42));
    assert_eq!(Parser::deserialize(test), expected);
}

#[test]
fn deserialize_bulk_string() {
    let test = b"$6\r\nfoobar\r\n";
    let expected = Ok(Resp::BulkStr(b"foobar".to_vec()));
    assert_eq!(Parser::deserialize(test), expected);
}

#[test]
fn deserialize_array_of_simple_strings() {
    let test = b"*2\r\n+foo\r\n+bar\r\n";
    let expected = Ok(Resp::Arr(vec![
        Resp::SimpStr(b"foo".to_vec()),
        Resp::SimpStr(b"bar".to_vec()),
    ]));
    assert_eq!(Parser::deserialize(test), expected);
}

#[test]
fn deserialize_array_of_mixed_types() {
    let test = b"*3\r\n+hello\r\n:123\r\n$5\r\nworld\r\n";
    let expected = Ok(Resp::Arr(vec![
        Resp::SimpStr(b"hello".to_vec()),
        Resp::Int(123),
        Resp::BulkStr(b"world".to_vec()),
    ]));
    assert_eq!(Parser::deserialize(test), expected);
}

#[test]
fn deserialize_nested_array() {
    let test = b"*2\r\n*2\r\n+foo\r\n+bar\r\n:42\r\n";
    let expected = Ok(Resp::Arr(vec![
        Resp::Arr(vec![
            Resp::SimpStr(b"foo".to_vec()),
            Resp::SimpStr(b"bar".to_vec()),
        ]),
        Resp::Int(42),
    ]));
    assert_eq!(Parser::deserialize(test), expected);
}

#[test]
fn deserialize_empty_array() {
    let test = b"*0\r\n";
    let expected = Ok(Resp::Arr(vec![]));
    assert_eq!(Parser::deserialize(test), expected);
}

#[test]
fn deserialize_empty_bulk_string() {
    let test = b"$0\r\n\r\n";
    let expected = Ok(Resp::BulkStr(Vec::new()));
    assert_eq!(Parser::deserialize(test), expected);
}

#[test]
fn deserialize_invalid_prefix() {
    let test = b"!oops\r\n";
    assert_eq!(Parser::deserialize(test), Err(DecodeError::UnknownType));
}

#[test]
fn deserialize_invalid_integer() {
    let test = b":notanint\r\n";
    assert_eq!(Parser::deserialize(test), Err(DecodeError::InvalidInteger));
}

#[test]
fn deserialize_truncated_bulk_string() {
    let test = b"$4\r\nfoo\r\n"; // Length is 4 but only 3 bytes in "foo"
    assert_eq!(Parser::deserialize(test), Err(DecodeError::Truncated));
}

#[test]
fn serialize_simple_string() {
    let data = Resp::SimpStr(b"OK".to_vec());
    let test = Parser::serialize(data);
    assert_eq!(test, Ok(b"+OK\r\n".to_vec()));
}

#[test]
fn serialize_error() {
    let data = Resp::Error(b"ERR unknown command".to_vec());
    let test = Parser::serialize(data);
    assert_eq!(test, Ok(b"-ERR unknown command\r\n".to_vec()));
}

#[test]
fn serialize_integer() {
    let data = Resp::Int(1000);
    let test = Parser::serialize(data);
    assert_eq!(test, Ok(b":1000\r\n".to_vec()));
}

#[test]
fn serialize_bulk_string() {
    let data = Resp::BulkStr(b"foobar".to_vec());
    let test = Parser::serialize(data);
    assert_eq!(test, Ok(b"$6\r\nfoobar\r\n".to_vec()));
}

#[test]
fn serialize_empty_bulk_string() {
    let data = Resp::BulkStr(b"".to_vec());
    let test = Parser::serialize(data);
    assert_eq!(test, Ok(b"$0\r\n\r\n".to_vec()));
}

#[test]
fn serialize_array_of_integers() {
    let data = Resp::Arr(vec![Resp::Int(1), Resp::Int(2), Resp::Int(3)]);
    let test = Parser::serialize(data);
    assert_eq!(test, Ok(b"*3\r\n:1\r\n:2\r\n:3\r\n".to_vec()));
}

#[test]
fn serialize_array_of_mixed_types() {
    let data = Resp::Arr(vec![
        Resp::SimpStr(b"hello".to_vec()),
        Resp::Int(42),
        Resp::BulkStr(b"foo".to_vec()),
    ]);
    let test = Parser::serialize(data);
    assert_eq!(test, Ok(b"*3\r\n+hello\r\n:42\r\n$3\r\nfoo\r\n".to_vec()));
}

#[test]
fn serialize_nested_array() {
    let data = Resp::Arr(vec![
        Resp::Int(1),
        Resp::Arr(vec![
            Resp::BulkStr(b"foo".to_vec()),
            Resp::BulkStr(b"bar".to_vec()),
        ]),
        Resp::Int(2),
    ]);
    let test = Parser::serialize(data);
    assert_eq!(test, Ok(b"*3\r\n:1\r\n*2\r\n$3\r\nfoo\r\n$3\r\nbar\r\n:2\r\n".to_vec()));
}

#[test]
fn deserialize_empty_input_is_incomplete() {
    assert_eq!(Parser::deserialize(b""), Err(DecodeError::Incomplete));
}

#[test]
fn deserialize_array_missing_element_is_incomplete() {
    // The second declared element never starts, so the input ended while a
    // tag byte was still expected.
    assert_eq!(Parser::deserialize(b"*2\r\n:1\r\n"), Err(DecodeError::Incomplete));
}

#[test]
fn deserialize_unterminated_line() {
    assert_eq!(Parser::deserialize(b"+OK"), Err(DecodeError::UnterminatedLine));
}

#[test]
fn deserialize_bulk_missing_terminator_is_truncated() {
    assert_eq!(Parser::deserialize(b"$3\r\nfooxy"), Err(DecodeError::Truncated));
}

#[test]
fn deserialize_integer_extremes() {
    assert_eq!(
        Parser::deserialize(b":9223372036854775807\r\n"),
        Ok(Resp::Int(i64::MAX))
    );
    assert_eq!(
        Parser::deserialize(b":-9223372036854775808\r\n"),
        Ok(Resp::Int(i64::MIN))
    );
}

#[test]
fn deserialize_integer_overflow_is_invalid() {
    assert_eq!(
        Parser::deserialize(b":9223372036854775808\r\n"),
        Err(DecodeError::InvalidInteger)
    );
    assert_eq!(
        Parser::deserialize(b":-9223372036854775809\r\n"),
        Err(DecodeError::InvalidInteger)
    );
}

#[test]
fn deserialize_integer_plus_sign_is_invalid() {
    assert_eq!(Parser::deserialize(b":+5\r\n"), Err(DecodeError::InvalidInteger));
}

#[test]
fn deserialize_integer_empty_or_dash_is_invalid() {
    assert_eq!(Parser::deserialize(b":\r\n"), Err(DecodeError::InvalidInteger));
    assert_eq!(Parser::deserialize(b":-\r\n"), Err(DecodeError::InvalidInteger));
}

#[test]
fn deserialize_integer_leading_zeros() {
    assert_eq!(Parser::deserialize(b":0042\r\n"), Ok(Resp::Int(42)));
}

#[test]
fn deserialize_negative_bulk_length_is_invalid() {
    assert_eq!(Parser::deserialize(b"$-1\r\n"), Err(DecodeError::InvalidInteger));
}

#[test]
fn deserialize_negative_array_count_is_invalid() {
    assert_eq!(Parser::deserialize(b"*-1\r\n"), Err(DecodeError::InvalidInteger));
}

#[test]
fn deserialize_ignores_trailing_bytes() {
    assert_eq!(
        Parser::deserialize(b"+OK\r\nextra"),
        Ok(Resp::SimpStr(b"OK".to_vec()))
    );
}

#[test]
fn deserialize_binary_bulk_payload() {
    let test = b"$4\r\n\x00\xff\r\n\r\n";
    assert_eq!(
        Parser::deserialize(test),
        Ok(Resp::BulkStr(vec![0u8, 255u8, 13u8, 10u8]))
    );
}

#[test]
fn serialize_rejects_embedded_terminator() {
    let data = Resp::SimpStr(b"a\r\nb".to_vec());
    assert_eq!(Parser::serialize(data), Err(EncodeError::InvalidContent));
    let nested = Resp::Arr(vec![Resp::Int(1), Resp::Error(b"x\r\n".to_vec())]);
    assert_eq!(Parser::serialize(nested), Err(EncodeError::InvalidContent));
}

#[test]
fn serialize_negative_integer() {
    assert_eq!(Parser::serialize(Resp::Int(-42)), Ok(b":-42\r\n".to_vec()));
    assert_eq!(Parser::serialize(Resp::Int(0)), Ok(b":0\r\n".to_vec()));
}

#[test]
fn serialize_integer_extremes() {
    assert_eq!(
        Parser::serialize(Resp::Int(i64::MIN)),
        Ok(b":-9223372036854775808\r\n".to_vec())
    );
    assert_eq!(
        Parser::serialize(Resp::Int(i64::MAX)),
        Ok(b":9223372036854775807\r\n".to_vec())
    );
}

#[test]
fn serialize_empty_array() {
    assert_eq!(Parser::serialize(Resp::Arr(vec![])), Ok(b"*0\r\n".to_vec()));
}

#[test]
fn round_trip_nested_value() {
    let value = Resp::Arr(vec![
        Resp::SimpStr(b"status".to_vec()),
        Resp::Arr(vec![Resp::Int(-7), Resp::BulkStr(b"payload".to_vec())]),
        Resp::Error(b"ERR nope".to_vec()),
        Resp::BulkStr(Vec::new()),
    ]);
    let encoded = Parser::serialize(Resp::Arr(vec![
        Resp::SimpStr(b"status".to_vec()),
        Resp::Arr(vec![Resp::Int(-7), Resp::BulkStr(b"payload".to_vec())]),
        Resp::Error(b"ERR nope".to_vec()),
        Resp::BulkStr(Vec::new()),
    ]))
    .unwrap();
    assert_eq!(Parser::deserialize(&encoded), Ok(value));
}

#[test]
fn round_trip_binary_bulk() {
    let value = Resp::BulkStr(vec![0u8, 1u8, 13u8, 10u8, 255u8]);
    let encoded = Parser::serialize(Resp::BulkStr(vec![0u8, 1u8, 13u8, 10u8, 255u8])).unwrap();
    assert_eq!(encoded, b"$5\r\n\x00\x01\r\n\xff\r\n".to_vec());
    assert_eq!(Parser::deserialize(&encoded), Ok(value));
}

#[test]
fn cursor_peek_and_step() {
    let mut cursor = ParserCursor::new(b"abc");
    assert_eq!(cursor.peek(), Some(b'a'));
    cursor.step(1);
    assert_eq!(cursor.peek(), Some(b'b'));
    cursor.step(2);
    assert_eq!(cursor.peek(), None);
    assert_eq!(ParserCursor::new(b"").peek(), None);
}

#[test]
fn cursor_next_line() {
    let mut cursor = ParserCursor::new(b"ab\r\ncd");
    assert_eq!(cursor.next_line(), Ok(b"ab".to_vec()));
    assert_eq!(cursor.peek(), Some(b'c'));
    assert_eq!(cursor.next_line(), Err(DecodeError::UnterminatedLine));
    assert_eq!(cursor.peek(), Some(b'c'));
}

#[test]
fn cursor_consume_bytes() {
    let mut cursor = ParserCursor::new(b"ab\r\nxy");
    assert_eq!(cursor.consume_bytes(2), Ok(b"ab".to_vec()));
    assert_eq!(cursor.peek(), Some(b'x'));
    assert_eq!(cursor.consume_bytes(2), Err(DecodeError::Truncated));
    assert_eq!(cursor.peek(), Some(b'x'));
}

#[test]
fn cursor_consume_bytes_requires_terminator() {
    let mut cursor = ParserCursor::new(b"abcd");
    assert_eq!(cursor.consume_bytes(2), Err(DecodeError::Truncated));
}
