//! Command dispatch of the server: one parsed command in, one RESP2 reply
//! out. Command names match without regard to ASCII case; argument counts
//! are checked before the engine is called.
use vstd::prelude::*;
use vstd::string::StringSliceAdditionalSpecFns;
use crate::engine::{kept_from, set_effect, MemoryEngine, TtlStatus};
use crate::error::HkvError;
use crate::shard::{model_delete, model_expire, model_get, model_set, model_ttl, Entries, ShardTtl};
use crate::resp::{
    all_digits, append_bytes, bulk_frame, crlf, decimal, digits_value, lemma_digits_value_nonneg, push_crlf, push_u64,
    push_usize,
};

verus! {

/// ASCII lower case of one byte.
pub open spec fn lower(b: u8) -> u8 {
    if 65 <= b <= 90 {
        (b + 32) as u8
    } else {
        b
    }
}

/// Equal up to ASCII case.
pub open spec fn eq_ignore_case(a: Seq<u8>, b: Seq<u8>) -> bool {
    a.len() == b.len() && forall|i: int| 0 <= i < a.len() ==> lower(#[trigger] a[i]) == lower(b[i])
}

/// `+<message>\r\n`
pub open spec fn simple_frame(m: Seq<u8>) -> Seq<u8> {
    seq![43u8] + m + crlf()
}

/// `-ERR <message>\r\n`
pub open spec fn error_frame(m: Seq<u8>) -> Seq<u8> {
    seq![45u8, 69u8, 82u8, 82u8, 32u8] + m + crlf()
}

/// Decimal form of a signed integer.
pub open spec fn signed_decimal(v: int) -> Seq<u8> {
    if v < 0 {
        seq![45u8] + decimal((-v) as nat)
    } else {
        decimal(v as nat)
    }
}

/// `:<value>\r\n`
pub open spec fn integer_frame(v: int) -> Seq<u8> {
    seq![58u8] + signed_decimal(v) + crlf()
}

/// `$-1\r\n`
pub open spec fn null_frame() -> Seq<u8> {
    seq![36u8, 45u8, 49u8, 13u8, 10u8]
}

/// Clamps a non-negative integer to `u64::MAX`.
pub open spec fn saturate_u64(v: int) -> u64 {
    if v > u64::MAX {
        u64::MAX
    } else {
        v as u64
    }
}

/// The first argument names `name`, in any ASCII case.
pub open spec fn names(args: Seq<Seq<u8>>, name: &str) -> bool {
    args.len() > 0 && eq_ignore_case(args[0], name.spec_bytes())
}

/// The byte contents of the arguments.
pub open spec fn args_of(args: Seq<Vec<u8>>) -> Seq<Seq<u8>> {
    args.map_values(|a: Vec<u8>| a@)
}

/// An unsigned decimal argument: digits only, at least one; saturates.
pub open spec fn parse_unsigned(a: Seq<u8>) -> Option<u64> {
    if a.len() > 0 && all_digits(a) {
        Some(saturate_u64(digits_value(a)))
    } else {
        None
    }
}

/// ASCII lower case of one byte.
fn to_ascii_lower(b: u8) -> (r: u8)
    ensures
        r == lower(b),
{
    if 65 <= b && b <= 90 {
        b + 32
    } else {
        b
    }
}

/// Compares two byte strings without regard to ASCII case.
pub fn eq_ignore_ascii_case(a: &[u8], b: &[u8]) -> (r: bool)
    ensures
        r == eq_ignore_case(a@, b@),
{
    if a.len() != b.len() {
        return false;
    }
    let mut i: usize = 0;
    while i < a.len()
        invariant
            a@.len() == b@.len(),
            i <= a@.len(),
            forall|j: int| 0 <= j < i ==> lower(#[trigger] a@[j]) == lower(b@[j]),
        decreases a@.len() - i,
    {
        if to_ascii_lower(a[i]) != to_ascii_lower(b[i]) {
            return false;
        }
        i = i + 1;
    }
    true
}

/// `+<message>\r\n`
pub fn resp_simple(message: &str) -> (r: Vec<u8>)
    ensures
        r@ == simple_frame(message.spec_bytes()),
{
    let mut buf: Vec<u8> = Vec::new();
    buf.push(43);
    append_bytes(&mut buf, message.as_bytes());
    push_crlf(&mut buf);
    assert(buf@ =~= simple_frame(message.spec_bytes()));
    buf
}

/// `-ERR <message>\r\n`
pub fn resp_error(message: &str) -> (r: Vec<u8>)
    ensures
        r@ == error_frame(message.spec_bytes()),
{
    let mut buf: Vec<u8> = Vec::new();
    buf.push(45);
    buf.push(69);
    buf.push(82);
    buf.push(82);
    buf.push(32);
    append_bytes(&mut buf, message.as_bytes());
    push_crlf(&mut buf);
    assert(buf@ =~= error_frame(message.spec_bytes()));
    buf
}

/// `:<value>\r\n`
pub fn resp_integer(value: i64) -> (r: Vec<u8>)
    ensures
        r@ == integer_frame(value as int),
{
    let mut buf: Vec<u8> = Vec::new();
    buf.push(58);
    if value < 0 {
        buf.push(45);
        let magnitude: u64 = (0i128 - value as i128) as u64;
        push_u64(&mut buf, magnitude);
    } else {
        push_u64(&mut buf, value as u64);
    }
    push_crlf(&mut buf);
    assert(buf@ =~= integer_frame(value as int));
    buf
}

/// `$<len>\r\n<data>\r\n`
pub fn resp_bulk(data: &[u8]) -> (r: Vec<u8>)
    ensures
        r@ == bulk_frame(data@),
{
    let mut buf: Vec<u8> = Vec::new();
    buf.push(36);
    push_usize(&mut buf, data.len());
    push_crlf(&mut buf);
    append_bytes(&mut buf, data);
    push_crlf(&mut buf);
    assert(buf@ =~= bulk_frame(data@));
    buf
}

/// `$-1\r\n`, the null bulk string.
pub fn resp_null() -> (r: Vec<u8>)
    ensures
        r@ == null_frame(),
{
    let mut buf: Vec<u8> = Vec::new();
    buf.push(36);
    buf.push(45);
    buf.push(49);
    push_crlf(&mut buf);
    assert(buf@ =~= null_frame());
    buf
}

proof fn lemma_unsigned_step(v: int, dgt: int)
    requires
        v >= 0,
        0 <= dgt <= 9,
    ensures
        (if saturate_u64(v) > (u64::MAX - dgt) / 10 {
            u64::MAX as int
        } else {
            saturate_u64(v) * 10 + dgt
        }) == saturate_u64(v * 10 + dgt) as int,
{
    let m = u64::MAX as int;
    if v > m {
        assert(v * 10 + dgt > m) by (nonlinear_arith)
            requires v > m, dgt >= 0, m >= 0;
    } else if v > (m - dgt) / 10 {
        assert(v * 10 + dgt > m) by (nonlinear_arith)
            requires v > (m - dgt) / 10, 0 <= dgt <= 9, m > 100;
    } else {
        assert(v * 10 + dgt <= m) by (nonlinear_arith)
            requires v <= (m - dgt) / 10, 0 <= dgt <= 9, m > 100;
    }
}

/// Parses an unsigned decimal argument, saturating on overflow; anything
/// else is the `invalid integer` error reply.
pub fn parse_u64(arg: &[u8]) -> (r: Result<u64, Vec<u8>>)
    ensures
        match parse_unsigned(arg@) {
            Some(v) => r == Ok::<u64, Vec<u8>>(v),
            None => r matches Err(e) && e@ == error_frame("invalid integer".spec_bytes()),
        },
{
    if arg.len() == 0 {
        return Err(resp_error("invalid integer"));
    }
    let mut value: u64 = 0;
    let mut i: usize = 0;
    while i < arg.len()
        invariant
            i <= arg@.len(),
            all_digits(arg@.take(i as int)),
            value == saturate_u64(digits_value(arg@.take(i as int))),
        decreases arg@.len() - i,
    {
        let b = arg[i];
        if b < 48 || b > 57 {
            return Err(resp_error("invalid integer"));
        }
        let dgt: u64 = (b - 48) as u64;
        proof {
            let prev = arg@.take(i as int);
            let next = arg@.take(i + 1);
            assert(next.drop_last() == prev);
            lemma_digits_value_nonneg(prev);
            lemma_unsigned_step(digits_value(prev), dgt as int);
            assert(all_digits(next)) by {
                assert forall|j: int| 0 <= j < next.len() implies crate::resp::is_digit(#[trigger] next[j]) by {
                    if j < prev.len() {
                        assert(next[j] == prev[j]);
                    }
                }
            }
        }
        if value > (u64::MAX - dgt) / 10 {
            value = u64::MAX;
        } else {
            value = value * 10 + dgt;
        }
        i = i + 1;
    }
    assert(arg@.take(i as int) == arg@);
    Ok(value)
}

/// What `SET k v EX s` does, taking the engine from `a` to `b`: `set(k,
/// v)` (with its eviction) leads to some state `mid`, then `expire(k, ns)`
/// at `b`'s clock; `ok` tells whether the key was still there to expire.
pub open spec fn set_ex_effect(a: &MemoryEngine, b: &MemoryEngine, k: Seq<u8>, v: Seq<u8>, ns: u64, ok: bool) -> bool {
    exists|mid: MemoryEngine|
        #[trigger] set_effect(a, &mid, k, v) && mid.clock() <= b.clock() && b.same_frame(&mid) && b.wf() && b.used()
            == mid.used() && model_expire(mid.entries(), k, ns, b.clock()) == (b.entries(), ok)
}

/// Nanoseconds in `secs` seconds, saturating.
pub open spec fn secs_to_nanos(secs: u64) -> u64 {
    if secs * 1_000_000_000 > u64::MAX {
        u64::MAX
    } else {
        (secs * 1_000_000_000) as u64
    }
}

/// The `GET` reply for what the engine returned.
pub open spec fn get_frame(v: Option<Seq<u8>>) -> Seq<u8> {
    match v {
        Some(b) => bulk_frame(b),
        None => null_frame(),
    }
}

/// The `TTL` reply for a key's remaining lifetime; whole seconds.
pub open spec fn ttl_frame(t: ShardTtl) -> Seq<u8> {
    match t {
        ShardTtl::Missing => integer_frame(-2),
        ShardTtl::NoExpiry => integer_frame(-1),
        ShardTtl::ExpiresIn(n) => integer_frame(n as int / 1_000_000_000),
    }
}

/// Deleting `keys` one after another, the i-th at time `ts[i]`: the
/// entries left, and how many of the keys were live when deleted.
pub open spec fn delete_all(e: Entries, keys: Seq<Seq<u8>>, ts: Seq<u64>) -> (Entries, int)
    decreases keys.len(),
{
    if keys.len() == 0 || ts.len() == 0 {
        (e, 0)
    } else {
        let (e1, n1) = delete_all(e, keys.drop_last(), ts.drop_last());
        let (e2, live) = model_delete(e1, keys.last(), ts.last());
        (e2, n1 + if live { 1int } else { 0 })
    }
}

/// Times that never go back, within `[lo, hi]`.
pub open spec fn times_between(ts: Seq<u64>, lo: u64, hi: u64) -> bool {
    &&& forall|a: int, b: int| 0 <= a < b < ts.len() ==> ts[a] <= ts[b]
    &&& forall|a: int| 0 <= a < ts.len() ==> lo <= #[trigger] ts[a] <= hi
}

/// Nanoseconds in `secs` seconds, saturating.
fn nanos_of_secs(secs: u64) -> (r: u64)
    ensures
        r == secs_to_nanos(secs),
{
    if secs > u64::MAX / 1_000_000_000 {
        proof {
            assert(secs * 1_000_000_000 > u64::MAX) by (nonlinear_arith)
                requires secs > u64::MAX / 1_000_000_000;
        }
        u64::MAX
    } else {
        proof {
            assert(secs * 1_000_000_000 <= u64::MAX) by (nonlinear_arith)
                requires secs <= u64::MAX / 1_000_000_000;
        }
        secs * 1_000_000_000
    }
}

/// `PING` answers `+PONG`, `PING m` echoes `m` as a bulk string.
fn handle_ping(args: &[Vec<u8>]) -> (r: Vec<u8>)
    ensures
        args@.len() == 1 ==> r@ == simple_frame("PONG".spec_bytes()),
        args@.len() == 2 ==> r@ == bulk_frame(args@[1]@),
        args@.len() != 1 && args@.len() != 2 ==> r@ == error_frame("wrong number of arguments for PING".spec_bytes()),
{
    if args.len() == 1 {
        resp_simple("PONG")
    } else if args.len() == 2 {
        resp_bulk(args[1].as_slice())
    } else {
        resp_error("wrong number of arguments for PING")
    }
}

/// The `INFO` payload.
fn handle_info() -> (r: Vec<u8>)
    ensures
        r@ == bulk_frame("role:master\r\nengine:hybridkv\r\n".spec_bytes()),
{
    resp_bulk("role:master\r\nengine:hybridkv\r\n".as_bytes())
}

/// `GET k`: the value as a bulk string, or the null bulk.
fn handle_get(args: &[Vec<u8>], engine: &mut MemoryEngine) -> (r: Vec<u8>)
    requires
        old(engine).wf(),
    ensures
        final(engine).wf(),
        final(engine).same_frame(old(engine)),
        old(engine).clock() <= final(engine).clock(),
        args@.len() != 2 ==> r@ == error_frame("wrong number of arguments for GET".spec_bytes()) && *final(engine) == *old(
            engine,
        ),
        args@.len() == 2 ==> {
            let (e2, v) = model_get(old(engine).entries(), args@[1]@, final(engine).clock());
            final(engine).entries() == e2 && r@ == get_frame(v)
        },
{
    if args.len() != 2 {
        return resp_error("wrong number of arguments for GET");
    }
    match engine.get(args[1].as_slice()) {
        Ok(Some(value)) => resp_bulk(value.as_slice()),
        Ok(None) => resp_null(),
        Err(_) => resp_error("engine error"),
    }
}

/// `SET k v` and `SET k v EX s`: any other argument count is an arity
/// error, and `EX` is the only option.
fn handle_set(args: &[Vec<u8>], engine: &mut MemoryEngine) -> (r: Vec<u8>)
    requires
        old(engine).wf(),
    ensures
        final(engine).wf(),
        final(engine).same_frame(old(engine)),
        old(engine).clock() <= final(engine).clock(),
        (args@.len() == 3 || args@.len() == 5) && old(engine).used() + args@[1]@.len() + args@[2]@.len() > usize::MAX
            ==> r@ == error_frame("engine error".spec_bytes()) && *final(engine) == *old(engine),
        args@.len() != 3 && args@.len() != 5 ==> r@ == error_frame("wrong number of arguments for SET".spec_bytes())
            && *final(engine) == *old(engine),
        args@.len() == 5 && old(engine).used() + args@[1]@.len() + args@[2]@.len() <= usize::MAX && !eq_ignore_case(args@[3]@, "EX".spec_bytes()) ==> r@ == error_frame(
            "unsupported SET options".spec_bytes(),
        ) && *final(engine) == *old(engine),
        args@.len() == 5 && old(engine).used() + args@[1]@.len() + args@[2]@.len() <= usize::MAX && eq_ignore_case(args@[3]@, "EX".spec_bytes()) && parse_unsigned(args@[4]@) is None ==> r@
            == error_frame("invalid integer".spec_bytes()) && *final(engine) == *old(engine),
        args@.len() == 3 && old(engine).used() + args@[1]@.len() + args@[2]@.len() <= usize::MAX ==> r@ == simple_frame(
            "OK".spec_bytes(),
        ) && set_effect(old(engine), final(engine), args@[1]@, args@[2]@),
        args@.len() == 5 && eq_ignore_case(args@[3]@, "EX".spec_bytes()) && parse_unsigned(args@[4]@) is Some
            && old(engine).used() + args@[1]@.len() + args@[2]@.len() <= usize::MAX ==> (r@ == simple_frame(
            "OK".spec_bytes(),
        ) || r@ == error_frame("engine error".spec_bytes())) && set_ex_effect(
            old(engine),
            final(engine),
            args@[1]@,
            args@[2]@,
            secs_to_nanos(parse_unsigned(args@[4]@).unwrap()),
            r@ == simple_frame("OK".spec_bytes()),
        ),
{
    if args.len() != 3 && args.len() != 5 {
        return resp_error("wrong number of arguments for SET");
    }
    let used = engine.used_bytes();
    if args[1].len() > usize::MAX - used || args[2].len() > usize::MAX - used - args[1].len() {
        return resp_error("engine error");
    }
    if args.len() == 5 && !eq_ignore_ascii_case(args[3].as_slice(), "EX".as_bytes()) {
        return resp_error("unsupported SET options");
    }
    let mut seconds: u64 = 0;
    if args.len() == 5 {
        seconds = match parse_u64(args[4].as_slice()) {
            Ok(v) => v,
            Err(reply) => return reply,
        };
    }
    let key = crate::shard::copy_bytes(&args[1]);
    let value = crate::shard::copy_bytes(&args[2]);
    if engine.set(key, value).is_err() {
        return resp_error("engine error");
    }
    if args.len() == 3 {
        return resp_simple("OK");
    }
    let ghost mid = *engine;
    let ghost k = args@[1]@;
    let ghost v = args@[2]@;
    let ok = engine.expire(args[1].as_slice(), nanos_of_secs(seconds)).is_ok();
    let r = if ok {
        resp_simple("OK")
    } else {
        resp_error("engine error")
    };
    proof {
        assert(simple_frame("OK".spec_bytes()) != error_frame("engine error".spec_bytes())) by {
            assert(simple_frame("OK".spec_bytes())[0] != error_frame("engine error".spec_bytes())[0]);
        }
        assert(set_effect(old(engine), &mid, k, v));
    }
    r
}

/// `DEL k...`: the count of live keys removed.
fn handle_del(args: &[Vec<u8>], engine: &mut MemoryEngine) -> (r: Vec<u8>)
    requires
        old(engine).wf(),
        args@.len() <= isize::MAX,
    ensures
        final(engine).wf(),
        final(engine).same_frame(old(engine)),
        old(engine).clock() <= final(engine).clock(),
        args@.len() < 2 ==> r@ == error_frame("wrong number of arguments for DEL".spec_bytes()) && *final(engine) == *old(
            engine,
        ),
        args@.len() >= 2 ==> exists|ts: Seq<u64>| {
            let (e2, n) = delete_all(old(engine).entries(), args_of(args@).drop_first(), ts);
            &&& ts.len() == args@.len() - 1
            &&& #[trigger] times_between(ts, old(engine).clock(), final(engine).clock())
            &&& final(engine).entries() == e2
            &&& r@ == integer_frame(n)
        },
{
    if args.len() < 2 {
        return resp_error("wrong number of arguments for DEL");
    }
    let ghost e0 = engine.entries();
    let ghost c0 = engine.clock();
    let ghost keys = args_of(args@).drop_first();
    let ghost mut ts: Seq<u64> = Seq::empty();
    let mut removed: i64 = 0;
    let mut i: usize = 1;
    while i < args.len()
        invariant
            engine.wf(),
            engine.same_frame(old(engine)),
            c0 == old(engine).clock(),
            e0 == old(engine).entries(),
            c0 <= engine.clock(),
            keys == args_of(args@).drop_first(),
            1 <= i <= args@.len() <= isize::MAX,
            ts.len() == i - 1,
            times_between(ts, c0, engine.clock()),
            0 <= removed < i,
            delete_all(e0, keys.take(i - 1), ts) == (engine.entries(), removed as int),
        decreases args@.len() - i,
    {
        let ghost before = *engine;
        let res = engine.delete(args[i].as_slice());
        proof {
            let ts2 = ts.push(engine.clock());
            let ks2 = keys.take(i as int);
            assert(ks2.drop_last() =~= keys.take(i - 1));
            assert(ts2.drop_last() =~= ts);
            assert(ks2.last() == args@[i as int]@);
            ts = ts2;
        }
        match res {
            Ok(true) => {
                removed = removed + 1;
            },
            Ok(false) => {},
            Err(_) => {},
        }
        i = i + 1;
    }
    proof {
        assert(keys.take(i - 1) =~= keys);
    }
    resp_integer(removed)
}

/// `EXPIRE k s`: `:1` when set, `:0` when the key is missing or expired.
fn handle_expire(args: &[Vec<u8>], engine: &mut MemoryEngine) -> (r: Vec<u8>)
    requires
        old(engine).wf(),
    ensures
        final(engine).wf(),
        final(engine).same_frame(old(engine)),
        old(engine).clock() <= final(engine).clock(),
        args@.len() != 3 ==> r@ == error_frame("wrong number of arguments for EXPIRE".spec_bytes()) && *final(engine)
            == *old(engine),
        args@.len() == 3 && parse_unsigned(args@[2]@) is None ==> r@ == error_frame("invalid integer".spec_bytes())
            && *final(engine) == *old(engine),
        args@.len() == 3 && parse_unsigned(args@[2]@) is Some ==> {
            let (e2, ok) = model_expire(
                old(engine).entries(),
                args@[1]@,
                secs_to_nanos(parse_unsigned(args@[2]@).unwrap()),
                final(engine).clock(),
            );
            final(engine).entries() == e2 && r@ == integer_frame(if ok { 1 } else { 0 })
        },
{
    if args.len() != 3 {
        return resp_error("wrong number of arguments for EXPIRE");
    }
    let seconds = match parse_u64(args[2].as_slice()) {
        Ok(v) => v,
        Err(reply) => return reply,
    };
    match engine.expire(args[1].as_slice(), nanos_of_secs(seconds)) {
        Ok(()) => resp_integer(1),
        Err(HkvError::NotFound) => resp_integer(0),
        Err(_) => resp_error("engine error"),
    }
}

/// `TTL k`: `:-2` missing, `:-1` no expiry, else whole seconds left.
fn handle_ttl(args: &[Vec<u8>], engine: &mut MemoryEngine) -> (r: Vec<u8>)
    requires
        old(engine).wf(),
    ensures
        final(engine).wf(),
        final(engine).same_frame(old(engine)),
        old(engine).clock() <= final(engine).clock(),
        args@.len() != 2 ==> r@ == error_frame("wrong number of arguments for TTL".spec_bytes()) && *final(engine) == *old(
            engine,
        ),
        args@.len() == 2 ==> {
            let (e2, t) = model_ttl(old(engine).entries(), args@[1]@, final(engine).clock());
            final(engine).entries() == e2 && r@ == ttl_frame(t)
        },
{
    if args.len() != 2 {
        return resp_error("wrong number of arguments for TTL");
    }
    match engine.ttl(args[1].as_slice()) {
        Ok(TtlStatus::Missing) => resp_integer(-2),
        Ok(TtlStatus::NoExpiry) => resp_integer(-1),
        Ok(TtlStatus::ExpiresIn(nanos)) => resp_integer((nanos / 1_000_000_000) as i64),
        Err(_) => resp_error("engine error"),
    }
}

/// Runs one command against the engine and returns the reply bytes.
/// Commands that fail their checks leave the engine as it was.
pub fn dispatch_command(args: &[Vec<u8>], engine: &mut MemoryEngine) -> (r: Vec<u8>)
    requires
        old(engine).wf(),
        args@.len() <= isize::MAX,
    ensures
        final(engine).wf(),
        final(engine).same_frame(old(engine)),
        old(engine).clock() <= final(engine).clock(),
        ({
            let a = args_of(args@);
            let e = old(engine).entries();
            let t = final(engine).clock();
            let unchanged = *final(engine) == *old(engine);
            if a.len() == 0 {
                r@ == error_frame("empty command".spec_bytes()) && unchanged
            } else if names(a, "PING") {
                unchanged && if a.len() == 1 {
                    r@ == simple_frame("PONG".spec_bytes())
                } else if a.len() == 2 {
                    r@ == bulk_frame(a[1])
                } else {
                    r@ == error_frame("wrong number of arguments for PING".spec_bytes())
                }
            } else if names(a, "GET") {
                if a.len() != 2 {
                    r@ == error_frame("wrong number of arguments for GET".spec_bytes()) && unchanged
                } else {
                    final(engine).entries() == model_get(e, a[1], t).0 && r@ == get_frame(model_get(e, a[1], t).1)
                }
            } else if names(a, "SET") {
                if (a.len() == 3 || a.len() == 5) && old(engine).used() + a[1].len() + a[2].len() > usize::MAX {
                    r@ == error_frame("engine error".spec_bytes()) && unchanged
                } else if a.len() != 3 && a.len() != 5 {
                    r@ == error_frame("wrong number of arguments for SET".spec_bytes()) && unchanged
                } else if a.len() == 5 && !eq_ignore_case(a[3], "EX".spec_bytes()) {
                    r@ == error_frame("unsupported SET options".spec_bytes()) && unchanged
                } else if a.len() == 5 && parse_unsigned(a[4]) is None {
                    r@ == error_frame("invalid integer".spec_bytes()) && unchanged
                } else if a.len() == 3 {
                    r@ == simple_frame("OK".spec_bytes()) && set_effect(old(engine), final(engine), a[1], a[2])
                } else {
                    (r@ == simple_frame("OK".spec_bytes()) || r@ == error_frame("engine error".spec_bytes()))
                        && set_ex_effect(
                        old(engine),
                        final(engine),
                        a[1],
                        a[2],
                        secs_to_nanos(parse_unsigned(a[4]).unwrap()),
                        r@ == simple_frame("OK".spec_bytes()),
                    )
                }
            } else if names(a, "DEL") {
                if a.len() < 2 {
                    r@ == error_frame("wrong number of arguments for DEL".spec_bytes()) && unchanged
                } else {
                    exists|ts: Seq<u64>|
                        {
                            &&& ts.len() == a.len() - 1
                            &&& #[trigger] times_between(ts, old(engine).clock(), t)
                            &&& final(engine).entries() == delete_all(e, a.drop_first(), ts).0
                            &&& r@ == integer_frame(delete_all(e, a.drop_first(), ts).1)
                        }
                }
            } else if names(a, "EXPIRE") {
                if a.len() != 3 {
                    r@ == error_frame("wrong number of arguments for EXPIRE".spec_bytes()) && unchanged
                } else if parse_unsigned(a[2]) is None {
                    r@ == error_frame("invalid integer".spec_bytes()) && unchanged
                } else {
                    let (e2, ok) = model_expire(e, a[1], secs_to_nanos(parse_unsigned(a[2]).unwrap()), t);
                    final(engine).entries() == e2 && r@ == integer_frame(if ok { 1 } else { 0 })
                }
            } else if names(a, "TTL") {
                if a.len() != 2 {
                    r@ == error_frame("wrong number of arguments for TTL".spec_bytes()) && unchanged
                } else {
                    final(engine).entries() == model_ttl(e, a[1], t).0 && r@ == ttl_frame(model_ttl(e, a[1], t).1)
                }
            } else if names(a, "INFO") {
                r@ == bulk_frame("role:master\r\nengine:hybridkv\r\n".spec_bytes()) && unchanged
            } else {
                r@ == error_frame("unknown command".spec_bytes()) && unchanged
            }
        }),
{
    let ghost a = args_of(args@);
    if args.len() == 0 {
        return resp_error("empty command");
    }
    proof {
        assert(forall|i: int| 0 <= i < args@.len() ==> a[i] == (#[trigger] args@[i])@);
        assert(a.drop_first() =~= args_of(args@).drop_first());
    }
    let cmd = args[0].as_slice();
    if eq_ignore_ascii_case(cmd, "PING".as_bytes()) {
        return handle_ping(args);
    }
    if eq_ignore_ascii_case(cmd, "GET".as_bytes()) {
        return handle_get(args, engine);
    }
    if eq_ignore_ascii_case(cmd, "SET".as_bytes()) {
        return handle_set(args, engine);
    }
    if eq_ignore_ascii_case(cmd, "DEL".as_bytes()) {
        return handle_del(args, engine);
    }
    if eq_ignore_ascii_case(cmd, "EXPIRE".as_bytes()) {
        return handle_expire(args, engine);
    }
    if eq_ignore_ascii_case(cmd, "TTL".as_bytes()) {
        return handle_ttl(args, engine);
    }
    if eq_ignore_ascii_case(cmd, "INFO".as_bytes()) {
        return handle_info();
    }
    resp_error("unknown command")
}

} // verus!
