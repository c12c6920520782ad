use std::time::Duration;

use hybridkv::client::{
    delete_reply, encode_u64, expire_reply, get_reply, info_reply, ping_reply, set_reply, ttl_reply, ClientConfig,
    ClientError, ClientTtl,
};
use hybridkv::resp::RespValue;

#[test]
fn default_config() {
    let c = ClientConfig::default();
    assert_eq!(c.addr, "127.0.0.1:6379");
    assert_eq!(c.max_idle, 8);
    assert_eq!(c.max_total, 16);
    assert!(c.read_timeout.is_none() && c.write_timeout.is_none() && c.connect_timeout.is_none());
}

#[test]
fn replies_map_to_results() {
    assert_eq!(get_reply(RespValue::Bulk(Some(b"value".to_vec()))).unwrap(), Some(b"value".to_vec()));
    assert_eq!(get_reply(RespValue::Bulk(None)).unwrap(), None);
    assert!(set_reply(RespValue::Simple(b"OK".to_vec())).is_ok());
    assert!(delete_reply(RespValue::Integer(1)).unwrap());
    assert!(!delete_reply(RespValue::Integer(0)).unwrap());
    assert!(expire_reply(RespValue::Integer(1)).unwrap());
    assert!(!expire_reply(RespValue::Integer(2)).unwrap());
    assert_eq!(ttl_reply(RespValue::Integer(-2)).unwrap(), ClientTtl::Missing);
    assert_eq!(ttl_reply(RespValue::Integer(-1)).unwrap(), ClientTtl::NoExpiry);
    assert_eq!(ttl_reply(RespValue::Integer(5)).unwrap(), ClientTtl::ExpiresIn(Duration::from_secs(5)));
    assert!(matches!(ttl_reply(RespValue::Integer(-7)), Err(ClientError::UnexpectedResponse)));
    assert_eq!(ping_reply(RespValue::Simple(b"PONG".to_vec())).unwrap(), b"PONG".to_vec());
    assert_eq!(ping_reply(RespValue::Bulk(Some(b"hi".to_vec()))).unwrap(), b"hi".to_vec());
    assert_eq!(info_reply(RespValue::Bulk(Some(b"role".to_vec()))).unwrap(), b"role".to_vec());
}

#[test]
fn error_and_unexpected_replies() {
    match get_reply(RespValue::Error(b"ERR boom".to_vec())) {
        Err(ClientError::Server { message }) => assert_eq!(message, b"ERR boom".to_vec()),
        _ => panic!("expected a server error"),
    }
    assert!(matches!(set_reply(RespValue::Integer(1)), Err(ClientError::UnexpectedResponse)));
    assert!(matches!(info_reply(RespValue::Bulk(None)), Err(ClientError::UnexpectedResponse)));
    assert!(matches!(ping_reply(RespValue::Array(Vec::new())), Err(ClientError::UnexpectedResponse)));
}

#[test]
fn seconds_are_encoded_in_decimal() {
    assert_eq!(encode_u64(0), b"0".to_vec());
    assert_eq!(encode_u64(1234), b"1234".to_vec());
    assert_eq!(encode_u64(u64::MAX), b"18446744073709551615".to_vec());
}
