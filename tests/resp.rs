use hybridkv::resp::{encode_command, parse_response, read_response, RespError, RespParser, RespValue};

#[test]
fn encodes_command() {
    let mut buf = Vec::new();
    encode_command(&[b"GET", b"key"], &mut buf);
    assert_eq!(&buf, b"*2\r\n$3\r\nGET\r\n$3\r\nkey\r\n");
}

#[test]
fn parses_simple_string() {
    let resp = read_response(b"+OK\r\n").unwrap();
    assert_eq!(resp, RespValue::Simple(b"OK".to_vec()));
}

#[test]
fn parses_bulk_string() {
    let resp = read_response(b"$5\r\nhello\r\n").unwrap();
    assert_eq!(resp, RespValue::Bulk(Some(b"hello".to_vec())));
}

#[test]
fn parses_null_bulk_string() {
    let resp = read_response(b"$-1\r\n").unwrap();
    assert_eq!(resp, RespValue::Bulk(None));
}

#[test]
fn parses_integer() {
    let resp = read_response(b":42\r\n").unwrap();
    assert_eq!(resp, RespValue::Integer(42));
}

#[test]
fn parses_error() {
    let resp = read_response(b"-ERR bad\r\n").unwrap();
    assert_eq!(resp, RespValue::Error(b"ERR bad".to_vec()));
}

#[test]
fn parses_negative_and_saturating_integers() {
    assert_eq!(read_response(b":-17\r\n").unwrap(), RespValue::Integer(-17));
    assert_eq!(read_response(b":99999999999999999999999\r\n").unwrap(), RespValue::Integer(i64::MAX));
    assert_eq!(read_response(b":0\r\n").unwrap(), RespValue::Integer(0));
}

#[test]
fn parses_nested_array() {
    let resp = read_response(b"*2\r\n:1\r\n*1\r\n$1\r\nx\r\n").unwrap();
    assert_eq!(
        resp,
        RespValue::Array(vec![RespValue::Integer(1), RespValue::Array(vec![RespValue::Bulk(Some(b"x".to_vec()))])])
    );
    assert_eq!(read_response(b"*-1\r\n").unwrap(), RespValue::Array(Vec::new()));
    assert_eq!(read_response(b"*0\r\n").unwrap(), RespValue::Array(Vec::new()));
}

#[test]
fn rejects_bad_framing() {
    assert!(read_response(b"?x\r\n").is_err());
    assert!(read_response(b":12a\r\n").is_err());
    assert!(read_response(b"+OK\n").is_err());
    assert!(read_response(b"\r\n").is_err());
    assert!(read_response(b"$3\r\nabcd\r\n").is_err());
    assert!(read_response(b"$5\r\nhel").is_err());
    assert!(matches!(parse_response(b":x\r\n"), Err(RespError::Protocol)));
}

#[test]
fn streaming_parse_reports_partial_input() {
    assert!(matches!(parse_response(b"$5\r\nhel"), Ok(None)));
    assert!(matches!(parse_response(b""), Ok(None)));
    match parse_response(b"+OK\r\n+PONG\r\n") {
        Ok(Some((v, used))) => {
            assert_eq!(v, RespValue::Simple(b"OK".to_vec()));
            assert_eq!(used, 5);
        }
        _ => panic!("expected a value"),
    }
}

#[test]
fn command_round_trip_keeps_arguments_and_trailing_bytes() {
    let args: [&[u8]; 4] = [b"SET", b"key", b"", b"va\r\nlue"];
    let mut buf = Vec::new();
    encode_command(&args, &mut buf);
    let frame_len = buf.len();
    buf.extend_from_slice(b"*1\r\n$4\r\nPI");
    let mut parser = RespParser::new();
    let parsed = parser.parse(&mut buf).unwrap().unwrap();
    let expected: Vec<Vec<u8>> = args.iter().map(|a| a.to_vec()).collect();
    assert_eq!(parsed, expected);
    assert_eq!(buf, b"*1\r\n$4\r\nPI".to_vec());
    assert!(frame_len > 0);
    assert!(parser.parse(&mut buf).unwrap().is_none());
    assert_eq!(buf, b"*1\r\n$4\r\nPI".to_vec());
}

#[test]
fn every_proper_prefix_of_a_command_is_incomplete() {
    let mut full = Vec::new();
    encode_command(&[b"GET", b"alpha"], &mut full);
    for k in 0..full.len() {
        let mut part = full[..k].to_vec();
        let mut parser = RespParser::new();
        assert!(parser.parse(&mut part).unwrap().is_none());
        assert_eq!(part, full[..k].to_vec());
    }
}

#[test]
fn inbound_command_must_be_array_of_bulks() {
    let mut parser = RespParser::new();
    let mut buf = b"+PING\r\n".to_vec();
    assert!(matches!(parser.parse(&mut buf), Err(RespError::Protocol)));
    let mut buf = b"*1\r\n$-1\r\n".to_vec();
    assert!(matches!(parser.parse(&mut buf), Err(RespError::Protocol)));
    let mut buf = b"*0\r\n".to_vec();
    assert_eq!(parser.parse(&mut buf).unwrap(), Some(Vec::new()));
    assert!(buf.is_empty());
}
