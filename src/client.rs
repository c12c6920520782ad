//! Client-side types, and the mapping from each command's reply to the
//! client API's result.
use vstd::prelude::*;
use core::time::Duration;
use crate::resp::{decimal, push_u64, RespValue};
use crate::clock::duration_from_secs;

verus! {

/// std's I/O error, carried through client errors unchanged.
#[verifier::external_type_specification]
#[verifier::external_body]
pub struct ExIoError(std::io::Error);

/// Errors surfaced by the client.
#[derive(Debug)]
pub enum ClientError {
    /// Network or I/O failure while reading or writing.
    Io(std::io::Error),
    /// RESP2 framing or parse error.
    Protocol,
    /// The server answered with an error reply; its text, verbatim.
    Server { message: Vec<u8> },
    /// The reply's kind does not fit the command.
    UnexpectedResponse,
    /// The pool is at capacity and holds no idle connection.
    PoolExhausted,
    /// The address does not parse as a socket address.
    InvalidAddress,
}

/// Result type of the client.
pub type ClientResult<T> = Result<T, ClientError>;

/// TTL state reported by the server.
#[derive(Debug, Clone, Copy, PartialEq, Eq)]
pub enum ClientTtl {
    /// The key is missing or already expired.
    Missing,
    /// The key exists without expiration.
    NoExpiry,
    /// The key expires after the given time.
    ExpiresIn(Duration),
}

/// Configuration of the client and of its pool.
#[derive(Debug, Clone)]
pub struct ClientConfig {
    /// Server address, e.g. `127.0.0.1:6379`.
    pub addr: String,
    /// Maximum idle connections kept in the pool.
    pub max_idle: usize,
    /// Maximum connections, idle and in use.
    pub max_total: usize,
    /// Optional TCP read timeout.
    pub read_timeout: Option<Duration>,
    /// Optional TCP write timeout.
    pub write_timeout: Option<Duration>,
    /// Optional TCP connect timeout.
    pub connect_timeout: Option<Duration>,
}

impl Default for ClientConfig {
    fn default() -> (r: ClientConfig)
        ensures
            r.addr@ == "127.0.0.1:6379"@,
            r.max_idle == 8,
            r.max_total == 16,
            r.read_timeout is None,
            r.write_timeout is None,
            r.connect_timeout is None,
    {
        ClientConfig {
            addr: "127.0.0.1:6379".to_owned(),
            max_idle: 8,
            max_total: 16,
            read_timeout: None,
            write_timeout: None,
            connect_timeout: None,
        }
    }
}

/// The decimal ASCII form of `value`.
pub fn encode_u64(value: u64) -> (r: Vec<u8>)
    ensures
        r@ == decimal(value as nat),
{
    let mut out: Vec<u8> = Vec::new();
    push_u64(&mut out, value);
    assert(out@ == Seq::<u8>::empty() + decimal(value as nat));
    out
}

/// The client's reading of an error reply, or of a reply of the wrong kind.
pub open spec fn other_reply<T>(reply: RespValue, r: ClientResult<T>) -> bool {
    match reply {
        RespValue::Error(m) => r matches Err(ClientError::Server { message }) && message@ == m@,
        _ => r matches Err(ClientError::UnexpectedResponse),
    }
}

fn fail<T>(reply: RespValue) -> (r: ClientResult<T>)
    ensures
        other_reply(reply, r),
{
    match reply {
        RespValue::Error(message) => Err(ClientError::Server { message }),
        _ => Err(ClientError::UnexpectedResponse),
    }
}

/// Result of `GET`: a bulk string, or `None` for the null bulk.
pub fn get_reply(reply: RespValue) -> (r: ClientResult<Option<Vec<u8>>>)
    ensures
        match reply {
            RespValue::Bulk(None) => r matches Ok(None),
            RespValue::Bulk(Some(d)) => r matches Ok(Some(v)) && v@ == d@,
            _ => other_reply(reply, r),
        },
{
    match reply {
        RespValue::Bulk(data) => Ok(data),
        _ => fail(reply),
    }
}

/// Result of `SET`: any simple-string reply is success.
pub fn set_reply(reply: RespValue) -> (r: ClientResult<()>)
    ensures
        match reply {
            RespValue::Simple(_) => r is Ok,
            _ => other_reply(reply, r),
        },
{
    match reply {
        RespValue::Simple(_) => Ok(()),
        _ => fail(reply),
    }
}

/// Result of `DEL`: whether the count of removed keys is positive.
pub fn delete_reply(reply: RespValue) -> (r: ClientResult<bool>)
    ensures
        match reply {
            RespValue::Integer(n) => r matches Ok(b) && b == (n > 0),
            _ => other_reply(reply, r),
        },
{
    match reply {
        RespValue::Integer(count) => Ok(count > 0),
        _ => fail(reply),
    }
}

/// Result of `EXPIRE`: whether the reply is exactly 1.
pub fn expire_reply(reply: RespValue) -> (r: ClientResult<bool>)
    ensures
        match reply {
            RespValue::Integer(n) => r matches Ok(b) && b == (n == 1),
            _ => other_reply(reply, r),
        },
{
    match reply {
        RespValue::Integer(value) => Ok(value == 1),
        _ => fail(reply),
    }
}

/// Result of `TTL`: -2 is missing, -1 is no expiry, `n >= 0` expires in
/// `n` seconds; any other integer is unexpected.
pub fn ttl_reply(reply: RespValue) -> (r: ClientResult<ClientTtl>)
    ensures
        match reply {
            RespValue::Integer(n) => if n == -2 {
                r matches Ok(ClientTtl::Missing)
            } else if n == -1 {
                r matches Ok(ClientTtl::NoExpiry)
            } else if n >= 0 {
                r matches Ok(ClientTtl::ExpiresIn(_))
            } else {
                r matches Err(ClientError::UnexpectedResponse)
            },
            _ => other_reply(reply, r),
        },
{
    match reply {
        RespValue::Integer(value) => {
            if value == -2 {
                Ok(ClientTtl::Missing)
            } else if value == -1 {
                Ok(ClientTtl::NoExpiry)
            } else if value >= 0 {
                Ok(ClientTtl::ExpiresIn(duration_from_secs(value as u64)))
            } else {
                Err(ClientError::UnexpectedResponse)
            }
        },
        _ => fail(reply),
    }
}

/// Result of `PING`: the payload of a simple or non-null bulk reply.
pub fn ping_reply(reply: RespValue) -> (r: ClientResult<Vec<u8>>)
    ensures
        match reply {
            RespValue::Simple(t) => r matches Ok(v) && v@ == t@,
            RespValue::Bulk(Some(d)) => r matches Ok(v) && v@ == d@,
            _ => other_reply(reply, r),
        },
{
    match reply {
        RespValue::Simple(text) => Ok(text),
        RespValue::Bulk(Some(data)) => Ok(data),
        _ => fail(reply),
    }
}

/// Result of `INFO`: the payload of a non-null bulk reply.
pub fn info_reply(reply: RespValue) -> (r: ClientResult<Vec<u8>>)
    ensures
        match reply {
            RespValue::Bulk(Some(d)) => r matches Ok(v) && v@ == d@,
            _ => other_reply(reply, r),
        },
{
    match reply {
        RespValue::Bulk(Some(data)) => Ok(data),
        _ => fail(reply),
    }
}

} // verus!
