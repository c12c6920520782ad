use hybridkv::engine::MemoryEngine;
use hybridkv::server::{dispatch_command, eq_ignore_ascii_case, parse_u64, resp_bulk, resp_error, resp_integer, resp_null, resp_simple};

fn run(engine: &mut MemoryEngine, args: &[&[u8]]) -> Vec<u8> {
    let args: Vec<Vec<u8>> = args.iter().map(|a| a.to_vec()).collect();
    dispatch_command(&args, engine)
}

#[test]
fn set_then_get_replies() {
    let mut engine = MemoryEngine::with_shard_count(4);
    assert_eq!(run(&mut engine, &[b"SET", b"key", b"value"]), b"+OK\r\n".to_vec());
    assert_eq!(run(&mut engine, &[b"GET", b"key"]), b"$5\r\nvalue\r\n".to_vec());
    assert_eq!(run(&mut engine, &[b"get", b"nope"]), b"$-1\r\n".to_vec());
}

#[test]
fn ping_info_and_errors() {
    let mut engine = MemoryEngine::with_shard_count(1);
    assert_eq!(run(&mut engine, &[b"ping"]), b"+PONG\r\n".to_vec());
    assert_eq!(run(&mut engine, &[b"PING", b"hi"]), b"$2\r\nhi\r\n".to_vec());
    assert_eq!(run(&mut engine, &[b"PING", b"a", b"b"]), b"-ERR wrong number of arguments for PING\r\n".to_vec());
    assert_eq!(run(&mut engine, &[b"INFO"]), b"$30\r\nrole:master\r\nengine:hybridkv\r\n\r\n".to_vec());
    assert_eq!(run(&mut engine, &[]), b"-ERR empty command\r\n".to_vec());
    assert_eq!(run(&mut engine, &[b"FLUSHALL"]), b"-ERR unknown command\r\n".to_vec());
    assert_eq!(run(&mut engine, &[b"GET"]), b"-ERR wrong number of arguments for GET\r\n".to_vec());
    assert_eq!(run(&mut engine, &[b"SET", b"k"]), b"-ERR wrong number of arguments for SET\r\n".to_vec());
    assert_eq!(run(&mut engine, &[b"SET", b"k", b"v", b"PX", b"5"]), b"-ERR unsupported SET options\r\n".to_vec());
    assert_eq!(run(&mut engine, &[b"SET", b"k", b"v", b"EX"]), b"-ERR wrong number of arguments for SET\r\n".to_vec());
    assert_eq!(
        run(&mut engine, &[b"SET", b"k", b"v", b"EX", b"5", b"NX"]),
        b"-ERR wrong number of arguments for SET\r\n".to_vec()
    );
    assert_eq!(run(&mut engine, &[b"GET", b"k"]), b"$-1\r\n".to_vec());
    assert_eq!(run(&mut engine, &[b"SET", b"k", b"v", b"EX", b"x"]), b"-ERR invalid integer\r\n".to_vec());
    assert_eq!(run(&mut engine, &[b"DEL"]), b"-ERR wrong number of arguments for DEL\r\n".to_vec());
    assert_eq!(run(&mut engine, &[b"EXPIRE", b"k"]), b"-ERR wrong number of arguments for EXPIRE\r\n".to_vec());
    assert_eq!(run(&mut engine, &[b"TTL"]), b"-ERR wrong number of arguments for TTL\r\n".to_vec());
}

#[test]
fn del_expire_and_ttl_replies() {
    let mut engine = MemoryEngine::with_shard_count(4);
    run(&mut engine, &[b"SET", b"a", b"1"]);
    run(&mut engine, &[b"SET", b"b", b"2"]);
    assert_eq!(run(&mut engine, &[b"DEL", b"a", b"b", b"c"]), b":2\r\n".to_vec());
    assert_eq!(run(&mut engine, &[b"TTL", b"a"]), b":-2\r\n".to_vec());
    run(&mut engine, &[b"SET", b"a", b"1"]);
    assert_eq!(run(&mut engine, &[b"TTL", b"a"]), b":-1\r\n".to_vec());
    assert_eq!(run(&mut engine, &[b"EXPIRE", b"a", b"100"]), b":1\r\n".to_vec());
    assert_eq!(run(&mut engine, &[b"EXPIRE", b"zz", b"100"]), b":0\r\n".to_vec());
    assert_eq!(run(&mut engine, &[b"EXPIRE", b"a", b"-1"]), b"-ERR invalid integer\r\n".to_vec());
    let ttl = run(&mut engine, &[b"TTL", b"a"]);
    assert!(ttl == b":99\r\n".to_vec() || ttl == b":100\r\n".to_vec());
    assert_eq!(run(&mut engine, &[b"set", b"e", b"v", b"ex", b"50"]), b"+OK\r\n".to_vec());
    let ttl = run(&mut engine, &[b"TTL", b"e"]);
    assert!(ttl == b":49\r\n".to_vec() || ttl == b":50\r\n".to_vec());
}

#[test]
fn reply_builders() {
    assert_eq!(resp_simple("OK"), b"+OK\r\n".to_vec());
    assert_eq!(resp_error("bad"), b"-ERR bad\r\n".to_vec());
    assert_eq!(resp_integer(0), b":0\r\n".to_vec());
    assert_eq!(resp_integer(-2), b":-2\r\n".to_vec());
    assert_eq!(resp_integer(i64::MIN), b":-9223372036854775808\r\n".to_vec());
    assert_eq!(resp_bulk(b""), b"$0\r\n\r\n".to_vec());
    assert_eq!(resp_null(), b"$-1\r\n".to_vec());
}

#[test]
fn argument_helpers() {
    assert!(eq_ignore_ascii_case(b"eXpIrE", b"EXPIRE"));
    assert!(!eq_ignore_ascii_case(b"GETS", b"GET"));
    assert!(!eq_ignore_ascii_case(b"[", b"{"));
    assert_eq!(parse_u64(b"42"), Ok(42));
    assert_eq!(parse_u64(b"99999999999999999999999"), Ok(u64::MAX));
    assert_eq!(parse_u64(b""), Err(b"-ERR invalid integer\r\n".to_vec()));
    assert_eq!(parse_u64(b"+4"), Err(b"-ERR invalid integer\r\n".to_vec()));
}

#[test]
fn set_ex_under_budget() {
    let mut engine = MemoryEngine::with_shard_count_and_capacity(1, 10);
    assert_eq!(run(&mut engine, &[b"SET", b"k", b"vv", b"EX", b"10"]), b"+OK\r\n".to_vec());
    let ttl = run(&mut engine, &[b"TTL", b"k"]);
    assert!(ttl == b":9\r\n".to_vec() || ttl == b":10\r\n".to_vec());
    assert_eq!(run(&mut engine, &[b"SET", b"big", b"0123456789", b"EX", b"10"]), b"-ERR engine error\r\n".to_vec());
    assert_eq!(run(&mut engine, &[b"GET", b"big"]), b"$-1\r\n".to_vec());
}
