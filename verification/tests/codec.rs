use kv::codec::{ParseError, RespParser, RespRequest};
use kv::value::RespValue;

fn parse_one(input: &[u8]) -> Result<RespValue, ParseError> {
    let mut parser = RespParser::new(input.to_vec());
    parser.parse()
}

fn encode(v: &RespValue) -> Vec<u8> {
    v.write()
}

#[test]
fn parse_simple_string() {
    assert_eq!(
        parse_one(b"+OK\r\n"),
        Ok(RespValue::SimpleString(b"OK".to_vec()))
    );
}

#[test]
fn parse_error_value() {
    assert_eq!(
        parse_one(b"-ERR oops\r\n"),
        Ok(RespValue::Error(b"ERR oops".to_vec()))
    );
}

#[test]
fn parse_integer() {
    assert_eq!(parse_one(b":12\r\n"), Ok(RespValue::Integer(12)));
    assert_eq!(parse_one(b":0\r\n"), Ok(RespValue::Integer(0)));
    assert_eq!(
        parse_one(b":9223372036854775807\r\n"),
        Ok(RespValue::Integer(i64::MAX))
    );
}

#[test]
fn integer_fields_travel_unsigned() {
    // a value past i64::MAX wraps into the negative range, as the wire
    // format stores integers unsigned
    assert_eq!(
        parse_one(b":18446744073709551615\r\n"),
        Ok(RespValue::Integer(-1))
    );
    // a minus sign is not a digit, so a negative integer cannot arrive
    assert_eq!(parse_one(b":-5\r\n"), Err(ParseError::InvalidInteger));
    // past u64::MAX the field overflows
    assert_eq!(
        parse_one(b":18446744073709551616\r\n"),
        Err(ParseError::InvalidInteger)
    );
}

#[test]
fn parse_bulk_string() {
    assert_eq!(
        parse_one(b"$5\r\nhello\r\n"),
        Ok(RespValue::BulkString(Some(b"hello".to_vec())))
    );
}

#[test]
fn parse_bulk_string_binary_safe() {
    // payload bytes are not scanned: embedded CR and LF pass through
    assert_eq!(
        parse_one(b"$6\r\na\r\nb\x00c\r\n"),
        Ok(RespValue::BulkString(Some(b"a\r\nb\x00c".to_vec())))
    );
}

#[test]
fn parse_null_bulk_string() {
    assert_eq!(parse_one(b"$-1\r\n"), Ok(RespValue::BulkString(None)));
}

#[test]
fn parse_empty_bulk_string_consumes_only_header() {
    let mut parser = RespParser::new(b"$0\r\n".to_vec());
    assert_eq!(parser.parse(), Ok(RespValue::BulkString(Some(Vec::new()))));
    assert_eq!(parser.position(), 4);
}

#[test]
fn parse_array() {
    assert_eq!(
        parse_one(b"*2\r\n+a\r\n:7\r\n"),
        Ok(RespValue::Array(vec![
            RespValue::SimpleString(b"a".to_vec()),
            RespValue::Integer(7),
        ]))
    );
    assert_eq!(parse_one(b"*0\r\n"), Ok(RespValue::Array(vec![])));
}

#[test]
fn malformed_bulk_header_fails_cleanly() {
    // a bulk-string header whose length field is not a number fails at
    // once, without consuming or waiting for further bytes
    let mut parser = RespParser::new(b"$abc\r\n".to_vec());
    assert_eq!(parser.parse(), Err(ParseError::InvalidInteger));
}

#[test]
fn truncated_input_is_incomplete() {
    assert_eq!(parse_one(b"*2\r\n+a\r\n"), Err(ParseError::Incomplete));
    assert_eq!(parse_one(b"$5\r\nhel"), Err(ParseError::Incomplete));
    assert_eq!(parse_one(b"+OK"), Err(ParseError::Incomplete));
    assert_eq!(parse_one(b""), Err(ParseError::Incomplete));
}

#[test]
fn short_or_unterminated_lines_fail() {
    assert_eq!(parse_one(b"+\n"), Err(ParseError::InvalidLine));
    assert_eq!(parse_one(b"+abc\n"), Err(ParseError::InvalidLine));
}

#[test]
fn unknown_leading_byte_fails() {
    assert_eq!(parse_one(b"?ab\r\n"), Err(ParseError::InvalidChar(b'?')));
}

#[test]
fn nesting_past_the_depth_bound_fails() {
    let mut input = Vec::new();
    for _ in 0..65 {
        input.extend_from_slice(b"*1\r\n");
    }
    input.extend_from_slice(b"+x\r\n");
    assert_eq!(parse_one(&input), Err(ParseError::NestingTooDeep));
}

#[test]
fn nesting_at_the_depth_bound_parses() {
    let mut input = Vec::new();
    for _ in 0..64 {
        input.extend_from_slice(b"*1\r\n");
    }
    input.extend_from_slice(b"+x\r\n");
    let mut expected = RespValue::SimpleString(b"x".to_vec());
    for _ in 0..64 {
        expected = RespValue::Array(vec![expected]);
    }
    assert_eq!(parse_one(&input), Ok(expected));
}

#[test]
fn encode_each_variant() {
    assert_eq!(encode(&RespValue::SimpleString(b"OK".to_vec())), b"+OK\r\n".to_vec());
    assert_eq!(encode(&RespValue::Error(b"ERR bad".to_vec())), b"-ERR bad\r\n".to_vec());
    assert_eq!(encode(&RespValue::Integer(12)), b":12\r\n".to_vec());
    assert_eq!(encode(&RespValue::Integer(-5)), b":-5\r\n".to_vec());
    assert_eq!(encode(&RespValue::Integer(i64::MIN)), b":-9223372036854775808\r\n".to_vec());
    assert_eq!(
        encode(&RespValue::BulkString(Some(b"hello".to_vec()))),
        b"$5\r\nhello\r\n".to_vec()
    );
    assert_eq!(encode(&RespValue::BulkString(None)), b"$-1\r\n".to_vec());
    assert_eq!(
        encode(&RespValue::Array(vec![
            RespValue::SimpleString(b"a".to_vec()),
            RespValue::Integer(7),
        ])),
        b"*2\r\n+a\r\n:7\r\n".to_vec()
    );
}

#[test]
fn round_trip_nested_value() {
    let v = RespValue::Array(vec![
        RespValue::SimpleString(b"status".to_vec()),
        RespValue::BulkString(None),
        RespValue::Array(vec![
            RespValue::Integer(42),
            RespValue::BulkString(Some(b"bin\x00\xffdata".to_vec())),
        ]),
        RespValue::Error(b"E".to_vec()),
    ]);
    let wire = encode(&v);
    let mut parser = RespParser::new(wire.clone());
    assert_eq!(parser.parse(), Ok(v));
    assert_eq!(parser.position(), wire.len());
}

#[test]
fn round_trip_leaves_following_bytes() {
    let v = RespValue::BulkString(Some(b"abc".to_vec()));
    let mut wire = encode(&v);
    wire.extend_from_slice(b"+next\r\n");
    let mut parser = RespParser::new(wire);
    assert_eq!(parser.parse(), Ok(v));
    assert_eq!(
        parser.parse(),
        Ok(RespValue::SimpleString(b"next".to_vec()))
    );
}

#[test]
fn extract_request() {
    let mut parser = RespParser::new(b"*3\r\n$3\r\nSET\r\n$1\r\nk\r\n$1\r\nv\r\n".to_vec());
    let req = parser.parse_request().unwrap();
    assert_eq!(req.command, b"SET".to_vec());
    assert_eq!(
        req.args,
        vec![
            RespValue::BulkString(Some(b"k".to_vec())),
            RespValue::BulkString(Some(b"v".to_vec())),
        ]
    );
}

#[test]
fn request_must_be_an_array() {
    let mut parser = RespParser::new(b"+PING\r\n".to_vec());
    assert_eq!(parser.parse_request(), Err(ParseError::InvalidRequest));
}

#[test]
fn request_needs_a_bulk_string_command() {
    let mut parser = RespParser::new(b"*0\r\n".to_vec());
    assert_eq!(parser.parse_request(), Err(ParseError::InvalidCommand));
    let mut parser = RespParser::new(b"*1\r\n:7\r\n".to_vec());
    assert_eq!(parser.parse_request(), Err(ParseError::InvalidCommand));
    let mut parser = RespParser::new(b"*1\r\n$-1\r\n".to_vec());
    assert_eq!(parser.parse_request(), Err(ParseError::InvalidCommand));
}

#[test]
fn request_type_is_constructible() {
    let req = RespRequest {
        command: b"PING".to_vec(),
        args: vec![],
    };
    assert_eq!(req.command, b"PING".to_vec());
}
