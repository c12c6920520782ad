//! RESP2 framing: encoding of command arrays and streaming parsing of
//! replies and inbound commands.
//!
//! The grammar is given by the spec functions `parse_value` / `parse_items`
//! over a byte sequence and a start position. The executable parser follows
//! them exactly; a frame that is cut short parses as `Incomplete` and the
//! caller may retry once more bytes have arrived.
use vstd::prelude::*;
use crate::client::{ClientError, ClientResult};

verus! {

pub const CR: u8 = 13;

pub const LF: u8 = 10;

/// The two bytes that end every RESP2 line.
pub open spec fn crlf() -> Seq<u8> {
    seq![CR, LF]
}

pub open spec fn is_digit(b: u8) -> bool {
    48 <= b <= 57
}

pub open spec fn all_digits(d: Seq<u8>) -> bool {
    forall|i: int| 0 <= i < d.len() ==> is_digit(#[trigger] d[i])
}

/// Decimal ASCII form of `n`, most significant digit first, no leading zeros.
pub open spec fn decimal(n: nat) -> Seq<u8>
    decreases n,
{
    if n < 10 {
        seq![(48 + n) as u8]
    } else {
        decimal(n / 10).push((48 + n % 10) as u8)
    }
}

/// The number that a run of decimal digits denotes.
pub open spec fn digits_value(d: Seq<u8>) -> int
    decreases d.len(),
{
    if d.len() == 0 {
        0
    } else {
        digits_value(d.drop_last()) * 10 + (d.last() - 48)
    }
}

/// Clamps a non-negative integer to `i64::MAX`.
pub open spec fn saturate(v: int) -> i64 {
    if v > i64::MAX {
        i64::MAX
    } else {
        v as i64
    }
}

/// A RESP2 integer field: optional `-`, then digits; saturates on overflow.
pub open spec fn parse_int(d: Seq<u8>) -> Option<i64> {
    if d.len() == 0 {
        None
    } else if d[0] == 45 {
        if all_digits(d.drop_first()) {
            Some((-saturate(digits_value(d.drop_first()))) as i64)
        } else {
            None
        }
    } else if all_digits(d) {
        Some(saturate(digits_value(d)))
    } else {
        None
    }
}

/// `$<len>\r\n<bytes>\r\n`
pub open spec fn bulk_frame(b: Seq<u8>) -> Seq<u8> {
    seq![36u8] + decimal(b.len()) + crlf() + b + crlf()
}

/// The bulk frames of `args`, one after another.
pub open spec fn bulks_frame(args: Seq<Seq<u8>>) -> Seq<u8>
    decreases args.len(),
{
    if args.len() == 0 {
        Seq::empty()
    } else {
        bulk_frame(args[0]) + bulks_frame(args.drop_first())
    }
}

/// One command as a RESP2 array of bulk strings.
pub open spec fn command_frame(args: Seq<Seq<u8>>) -> Seq<u8> {
    seq![42u8] + decimal(args.len()) + crlf() + bulks_frame(args)
}

/// The byte contents of a slice of argument slices.
pub open spec fn args_view(args: Seq<&[u8]>) -> Seq<Seq<u8>> {
    args.map_values(|a: &[u8]| a@)
}

/// A parsed RESP2 value.
pub enum Frame {
    Simple(Seq<u8>),
    Error(Seq<u8>),
    Integer(i64),
    Bulk(Option<Seq<u8>>),
    Array(Seq<Frame>),
}

/// Outcome of parsing one value starting at a position.
pub enum Parsed {
    /// More bytes are needed.
    Incomplete,
    /// The bytes are not a RESP2 value.
    Invalid,
    /// A value, and the position right after it.
    Done(Frame, int),
}

/// Outcome of parsing several values in a row.
pub enum ParsedItems {
    Incomplete,
    Invalid,
    Done(Seq<Frame>, int),
}

/// Outcome of reading one line.
pub enum Line {
    Incomplete,
    Invalid,
    /// The line's content ends before the first position, the next line
    /// starts at the second.
    Found(int, int),
}

/// Position of the first LF at or after `from`.
pub open spec fn find_lf(s: Seq<u8>, from: int) -> Option<int>
    decreases s.len() - from,
{
    if from < 0 || from >= s.len() {
        None
    } else if s[from] == LF {
        Some(from)
    } else {
        find_lf(s, from + 1)
    }
}

/// A line runs up to the first LF, which must follow a CR; it may not be empty.
pub open spec fn line_at(s: Seq<u8>, pos: int) -> Line {
    match find_lf(s, pos) {
        None => Line::Incomplete,
        Some(j) => if j >= pos + 2 && s[j - 1] == CR {
            Line::Found(j - 1, j + 1)
        } else {
            Line::Invalid
        },
    }
}

/// The body of a bulk string of declared length `n` that starts at `next`:
/// a negative length is the null bulk.
pub open spec fn bulk_at(s: Seq<u8>, next: int, n: i64) -> Parsed {
    if n < 0 {
        Parsed::Done(Frame::Bulk(None), next)
    } else if next + n + 2 > s.len() {
        Parsed::Incomplete
    } else if s[next + n] == CR && s[next + n + 1] == LF {
        Parsed::Done(Frame::Bulk(Some(s.subrange(next, next + n))), next + n + 2)
    } else {
        Parsed::Invalid
    }
}

/// One RESP2 value at `pos` of `s`.
pub open spec fn parse_value(s: Seq<u8>, pos: int) -> Parsed
    decreases s.len() - pos, 0int, 0int,
{
    if pos < 0 || pos > s.len() {
        Parsed::Invalid
    } else {
        match line_at(s, pos) {
            Line::Incomplete => Parsed::Incomplete,
            Line::Invalid => Parsed::Invalid,
            Line::Found(end, next) => {
                let rest = s.subrange(pos + 1, end);
                if !(pos < end < next <= s.len()) {
                    Parsed::Invalid
                } else if s[pos] == 43 {
                    Parsed::Done(Frame::Simple(rest), next)
                } else if s[pos] == 45 {
                    Parsed::Done(Frame::Error(rest), next)
                } else if s[pos] == 58 {
                    match parse_int(rest) {
                        None => Parsed::Invalid,
                        Some(v) => Parsed::Done(Frame::Integer(v), next),
                    }
                } else if s[pos] == 36 {
                    match parse_int(rest) {
                        None => Parsed::Invalid,
                        Some(n) => bulk_at(s, next, n),
                    }
                } else if s[pos] == 42 {
                    match parse_int(rest) {
                        None => Parsed::Invalid,
                        Some(n) => if n <= 0 {
                            Parsed::Done(Frame::Array(Seq::empty()), next)
                        } else {
                            match parse_items(s, next, n as nat) {
                                ParsedItems::Incomplete => Parsed::Incomplete,
                                ParsedItems::Invalid => Parsed::Invalid,
                                ParsedItems::Done(items, e) => Parsed::Done(Frame::Array(items), e),
                            }
                        },
                    }
                } else {
                    Parsed::Invalid
                }
            },
        }
    }
}

/// `n` RESP2 values in a row, starting at `pos`.
pub open spec fn parse_items(s: Seq<u8>, pos: int, n: nat) -> ParsedItems
    decreases s.len() - pos, 1int, n,
{
    if n == 0 {
        ParsedItems::Done(Seq::empty(), pos)
    } else if pos < 0 || pos > s.len() {
        ParsedItems::Invalid
    } else {
        match parse_value(s, pos) {
            Parsed::Incomplete => ParsedItems::Incomplete,
            Parsed::Invalid => ParsedItems::Invalid,
            Parsed::Done(f, p) => if p <= pos || p > s.len() {
                ParsedItems::Invalid
            } else {
                match parse_items(s, p, (n - 1) as nat) {
                    ParsedItems::Incomplete => ParsedItems::Incomplete,
                    ParsedItems::Invalid => ParsedItems::Invalid,
                    ParsedItems::Done(fs, e) => ParsedItems::Done(seq![f] + fs, e),
                }
            },
        }
    }
}

/// A RESP2 reply value.
#[derive(Debug, PartialEq, Eq)]
pub enum RespValue {
    /// `+OK` or `+PONG` style replies.
    Simple(Vec<u8>),
    /// `-ERR ...` replies.
    Error(Vec<u8>),
    /// `:123` replies.
    Integer(i64),
    /// `$...` bulk strings, `None` for the null bulk.
    Bulk(Option<Vec<u8>>),
    /// `*...` arrays.
    Array(Vec<RespValue>),
}

impl RespValue {
    /// The value this reply stands for.
    pub open spec fn frame(&self) -> Frame
        decreases self,
    {
        match self {
            RespValue::Simple(b) => Frame::Simple(b@),
            RespValue::Error(b) => Frame::Error(b@),
            RespValue::Integer(v) => Frame::Integer(*v),
            RespValue::Bulk(None) => Frame::Bulk(None),
            RespValue::Bulk(Some(b)) => Frame::Bulk(Some(b@)),
            RespValue::Array(items) => Frame::Array(
                Seq::new(
                    items.len() as nat,
                    |i: int|
                        if 0 <= i < items.len() {
                            items@[i].frame()
                        } else {
                            Frame::Bulk(None)
                        },
                ),
            ),
        }
    }
}

/// A framing error: the bytes are not valid RESP2.
#[derive(Debug, Clone, Copy, PartialEq, Eq, Structural)]
pub enum RespError {
    Protocol,
}

/// Outcome of the streaming parser.
pub enum Step<T> {
    Incomplete,
    Invalid,
    Done(T, usize),
}

/// Appends the bytes of `src` to `out`.
pub fn append_bytes(out: &mut Vec<u8>, src: &[u8])
    ensures
        final(out)@ == old(out)@ + src@,
{
    let ghost start = out@;
    let mut i: usize = 0;
    while i < src.len()
        invariant
            i <= src@.len(),
            out@ == start + src@.take(i as int),
        decreases src@.len() - i,
    {
        out.push(src[i]);
        i = i + 1;
        assert(src@.take(i as int) == src@.take(i - 1 as int).push(src@[i - 1]));
    }
    assert(src@.take(i as int) == src@);
}

/// Appends CR LF to `out`.
pub fn push_crlf(out: &mut Vec<u8>)
    ensures
        final(out)@ == old(out)@ + crlf(),
{
    out.push(CR);
    out.push(LF);
    assert(final(out)@ == old(out)@ + crlf());
}

/// Appends the decimal form of `value` to `out`.
pub fn push_usize(out: &mut Vec<u8>, value: usize)
    ensures
        final(out)@ == old(out)@ + decimal(value as nat),
    decreases value,
{
    let ghost start = out@;
    if value >= 10 {
        push_usize(out, value / 10);
    }
    let digit: u8 = (value % 10) as u8;
    out.push(48 + digit);
    proof {
        if value < 10 {
            assert(out@ == start + decimal(value as nat));
        } else {
            assert(decimal(value as nat) == decimal((value / 10) as nat).push((48 + value % 10) as u8));
            assert(out@ == start + decimal(value as nat));
        }
    }
}

/// Appends the decimal form of `value` to `out`.
pub fn push_u64(out: &mut Vec<u8>, value: u64)
    ensures
        final(out)@ == old(out)@ + decimal(value as nat),
    decreases value,
{
    let ghost start = out@;
    if value >= 10 {
        push_u64(out, value / 10);
    }
    let digit: u8 = (value % 10) as u8;
    out.push(48 + digit);
    proof {
        if value >= 10 {
            assert(decimal(value as nat) == decimal((value / 10) as nat).push((48 + value % 10) as u8));
        }
        assert(out@ == start + decimal(value as nat));
    }
}

proof fn lemma_bulks_frame_push(args: Seq<Seq<u8>>, b: Seq<u8>)
    ensures
        bulks_frame(args.push(b)) == bulks_frame(args) + bulk_frame(b),
    decreases args.len(),
{
    if args.len() == 0 {
        assert(args.push(b).drop_first() == Seq::<Seq<u8>>::empty());
        assert(bulks_frame(Seq::<Seq<u8>>::empty()) == Seq::<u8>::empty());
        assert(bulks_frame(args.push(b)) == bulk_frame(b) + Seq::<u8>::empty());
        assert(bulk_frame(b) + Seq::<u8>::empty() == bulk_frame(b));
    } else {
        lemma_bulks_frame_push(args.drop_first(), b);
        assert(args.push(b).drop_first() == args.drop_first().push(b));
        assert(args.push(b)[0] == args[0]);
    }
}

/// Encodes one command as a RESP2 array of bulk strings, appended to `out`.
pub fn encode_command(args: &[&[u8]], out: &mut Vec<u8>)
    ensures
        final(out)@ == old(out)@ + command_frame(args_view(args@)),
{
    let ghost start = out@;
    let ghost av = args_view(args@);
    out.push(42);
    push_usize(out, args.len());
    push_crlf(out);
    let ghost header = seq![42u8] + decimal(args@.len()) + crlf();
    assert(out@ == start + header);
    let mut i: usize = 0;
    while i < args.len()
        invariant
            i <= args@.len(),
            av == args_view(args@),
            av.len() == args@.len(),
            out@ == start + header + bulks_frame(av.take(i as int)),
        decreases args@.len() - i,
    {
        let arg: &[u8] = args[i];
        let ghost before = out@;
        out.push(36);
        push_usize(out, arg.len());
        push_crlf(out);
        append_bytes(out, arg);
        push_crlf(out);
        proof {
            assert(av[i as int] == arg@);
            assert(out@ == before + bulk_frame(arg@));
            assert(av.take(i + 1) == av.take(i as int).push(av[i as int]));
            lemma_bulks_frame_push(av.take(i as int), av[i as int]);
        }
        i = i + 1;
    }
    assert(av.take(i as int) == av);
}

proof fn lemma_array_frame(items: Vec<RespValue>)
    ensures
        RespValue::Array(items).frame() == Frame::Array(frames_of(items@)),
{
    let v = RespValue::Array(items);
    let fr = v.frame();
    let fs = fr->Array_0;
    assert(fs.len() == items@.len());
    assert forall|i: int| 0 <= i < fs.len() implies fs[i] == frames_of(items@)[i] by {}
    assert(fs =~= frames_of(items@));
}

/// What the streaming parser answers for one value.
pub open spec fn step_matches(r: Step<RespValue>, p: Parsed) -> bool {
    match r {
        Step::Incomplete => p is Incomplete,
        Step::Invalid => p is Invalid,
        Step::Done(v, e) => p == Parsed::Done(v.frame(), e as int),
    }
}

/// The frames of a run of values.
pub open spec fn frames_of(items: Seq<RespValue>) -> Seq<Frame> {
    items.map_values(|v: RespValue| v.frame())
}

/// What the streaming parser answers for a run of values.
pub open spec fn items_match(r: Step<Vec<RespValue>>, p: ParsedItems) -> bool {
    match r {
        Step::Incomplete => p is Incomplete,
        Step::Invalid => p is Invalid,
        Step::Done(v, e) => p == ParsedItems::Done(frames_of(v@), e as int),
    }
}

/// Puts `fs` in front of the values of `p`.
pub open spec fn prepend(fs: Seq<Frame>, p: ParsedItems) -> ParsedItems {
    match p {
        ParsedItems::Done(more, e) => ParsedItems::Done(fs + more, e),
        _ => p,
    }
}

/// Finds the first LF at or after `from`.
fn find_lf_from(s: &[u8], from: usize) -> (r: Option<usize>)
    requires
        from <= s@.len(),
    ensures
        match r {
            None => find_lf(s@, from as int) is None,
            Some(j) => find_lf(s@, from as int) == Some(j as int) && from <= j < s@.len(),
        },
{
    let mut i = from;
    while i < s.len()
        invariant
            from <= i <= s@.len(),
            find_lf(s@, from as int) == find_lf(s@, i as int),
        decreases s@.len() - i,
    {
        if s[i] == LF {
            return Some(i);
        }
        i = i + 1;
    }
    None
}

pub(crate) proof fn lemma_digits_value_nonneg(d: Seq<u8>)
    requires
        all_digits(d),
    ensures
        digits_value(d) >= 0,
    decreases d.len(),
{
    if d.len() > 0 {
        assert(all_digits(d.drop_last()));
        lemma_digits_value_nonneg(d.drop_last());
        assert(is_digit(d[d.len() - 1]));
    }
}

proof fn lemma_saturating_step(v: int, dgt: int)
    requires
        v >= 0,
        0 <= dgt <= 9,
    ensures
        (if saturate(v) > (i64::MAX - dgt) / 10 {
            i64::MAX as int
        } else {
            saturate(v) * 10 + dgt
        }) == saturate(v * 10 + dgt) as int,
{
    let m = i64::MAX as int;
    if v > m {
        assert(v * 10 + dgt > m) by (nonlinear_arith)
            requires v > m, dgt >= 0, m >= 0;
    } else {
        if v > (m - dgt) / 10 {
            assert(v * 10 + dgt > m) by (nonlinear_arith)
                requires v > (m - dgt) / 10, 0 <= dgt <= 9, m > 100;
        } else {
            assert(v * 10 + dgt <= m) by (nonlinear_arith)
                requires v <= (m - dgt) / 10, 0 <= dgt <= 9, m > 100;
        }
    }
}

/// Reads a run of digits starting at `start`, saturating at `i64::MAX`.
fn parse_digits(d: &[u8], start: usize) -> (r: Option<i64>)
    requires
        start <= d@.len(),
    ensures
        all_digits(d@.skip(start as int)) ==> r == Some(saturate(digits_value(d@.skip(start as int)))),
        !all_digits(d@.skip(start as int)) ==> r is None,
{
    let mut value: i64 = 0;
    let mut idx = start;
    while idx < d.len()
        invariant
            start <= idx <= d@.len(),
            all_digits(d@.subrange(start as int, idx as int)),
            value == saturate(digits_value(d@.subrange(start as int, idx as int))),
        decreases d@.len() - idx,
    {
        let b = d[idx];
        if b < 48 || b > 57 {
            proof {
                assert(d@.skip(start as int)[idx - start] == b);
            }
            return None;
        }
        let dgt: i64 = (b - 48) as i64;
        let ghost prev = d@.subrange(start as int, idx as int);
        let ghost next = d@.subrange(start as int, idx + 1);
        proof {
            assert(next.drop_last() == prev);
            assert(next.last() == b);
            lemma_digits_value_nonneg(prev);
            lemma_saturating_step(digits_value(prev), dgt as int);
            assert(all_digits(next)) by {
                assert forall|i: int| 0 <= i < next.len() implies is_digit(#[trigger] next[i]) by {
                    if i < prev.len() {
                        assert(next[i] == prev[i]);
                    }
                }
            }
        }
        if value > (i64::MAX - dgt) / 10 {
            value = i64::MAX;
        } else {
            value = value * 10 + dgt;
        }
        idx = idx + 1;
    }
    assert(d@.subrange(start as int, idx as int) == d@.skip(start as int));
    Some(value)
}

/// Parses a RESP2 integer field: optional `-`, then decimal digits.
/// Overflow saturates.
pub fn parse_i64(data: &[u8]) -> (r: Result<i64, RespError>)
    ensures
        match parse_int(data@) {
            Some(v) => r == Ok::<i64, RespError>(v),
            None => r == Err::<i64, RespError>(RespError::Protocol),
        },
{
    if data.len() == 0 {
        return Err(RespError::Protocol);
    }
    if data[0] == 45 {
        assert(data@.skip(1) == data@.drop_first());
        match parse_digits(data, 1) {
            Some(v) => {
                proof {
                    lemma_digits_value_nonneg(data@.drop_first());
                }
                Ok(-v)
            },
            None => Err(RespError::Protocol),
        }
    } else {
        assert(data@.skip(0) == data@);
        match parse_digits(data, 0) {
            Some(v) => Ok(v),
            None => Err(RespError::Protocol),
        }
    }
}

/// A copy of `s[start..end]`.
fn copy_range(s: &[u8], start: usize, end: usize) -> (r: Vec<u8>)
    requires
        start <= end <= s@.len(),
    ensures
        r@ == s@.subrange(start as int, end as int),
{
    let mut out: Vec<u8> = Vec::new();
    let mut i = start;
    while i < end
        invariant
            start <= i <= end <= s@.len(),
            out@ == s@.subrange(start as int, i as int),
        decreases end - i,
    {
        out.push(s[i]);
        i = i + 1;
        assert(out@ == s@.subrange(start as int, i as int));
    }
    out
}

/// Where the line at `pos` ends.
pub enum LineStep {
    Incomplete,
    Invalid,
    /// Content end, and the start of the next line.
    Found(usize, usize),
}

/// Finds the line that starts at `pos`: up to the first LF, which must
/// follow a CR, with a non-empty content.
fn read_line(s: &[u8], pos: usize) -> (r: LineStep)
    requires
        pos <= s@.len(),
    ensures
        match r {
            LineStep::Incomplete => line_at(s@, pos as int) is Incomplete,
            LineStep::Invalid => line_at(s@, pos as int) is Invalid,
            LineStep::Found(end, next) => line_at(s@, pos as int) == Line::Found(end as int, next as int)
                && pos < end < next <= s@.len(),
        },
{
    let j = match find_lf_from(s, pos) {
        None => return LineStep::Incomplete,
        Some(j) => j,
    };
    if j - pos < 2 || s[j - 1] != CR {
        return LineStep::Invalid;
    }
    LineStep::Found(j - 1, j + 1)
}

/// Reads the body of a bulk string of declared length `len` that starts at
/// `next`; a negative length is the null bulk.
fn parse_bulk_len(s: &[u8], next: usize, len: i64) -> (r: Step<RespValue>)
    requires
        next <= s@.len(),
    ensures
        step_matches(r, bulk_at(s@, next as int, len)),
        r matches Step::Done(_, e) ==> next <= e <= s@.len(),
{
    if len < 0 {
        return Step::Done(RespValue::Bulk(None), next);
    }
    let avail = s.len() - next;
    if len as u64 > avail as u64 || avail - (len as usize) < 2 {
        return Step::Incomplete;
    }
    let n = len as usize;
    if s[next + n] == CR && s[next + n + 1] == LF {
        Step::Done(RespValue::Bulk(Some(copy_range(s, next, next + n))), next + n + 2)
    } else {
        Step::Invalid
    }
}

/// Reads the elements of an array of declared length `len` that starts at
/// `next`; a length of zero or less is the empty array.
fn parse_array_len(s: &[u8], next: usize, len: i64) -> (r: Step<RespValue>)
    requires
        next <= s@.len(),
    ensures
        step_matches(
            r,
            if len <= 0 {
                Parsed::Done(Frame::Array(Seq::empty()), next as int)
            } else {
                match parse_items(s@, next as int, len as nat) {
                    ParsedItems::Incomplete => Parsed::Incomplete,
                    ParsedItems::Invalid => Parsed::Invalid,
                    ParsedItems::Done(items, e) => Parsed::Done(Frame::Array(items), e),
                }
            },
        ),
        r matches Step::Done(_, e) ==> next <= e <= s@.len(),
    decreases s@.len() - next, 2int, 0int,
{
    if len <= 0 {
        let empty: Vec<RespValue> = Vec::new();
        proof {
            lemma_array_frame(empty);
            assert(frames_of(empty@) =~= Seq::<Frame>::empty());
        }
        return Step::Done(RespValue::Array(empty), next);
    }
    match parse_items_at(s, next, len as u64) {
        Step::Incomplete => Step::Incomplete,
        Step::Invalid => Step::Invalid,
        Step::Done(items, e) => {
            proof {
                lemma_array_frame(items);
            }
            Step::Done(RespValue::Array(items), e)
        },
    }
}

/// Parses one RESP2 value that starts at `pos` of `s`.
pub fn parse_value_at(s: &[u8], pos: usize) -> (r: Step<RespValue>)
    requires
        pos <= s@.len(),
    ensures
        step_matches(r, parse_value(s@, pos as int)),
        r matches Step::Done(_, e) ==> pos < e <= s@.len(),
    decreases s@.len() - pos, 0int, 0int,
{
    let (end, next) = match read_line(s, pos) {
        LineStep::Incomplete => return Step::Incomplete,
        LineStep::Invalid => return Step::Invalid,
        LineStep::Found(end, next) => (end, next),
    };
    let rest = &s[pos + 1..end];
    assert(rest@ == s@.subrange(pos + 1, end as int));
    let tag = s[pos];
    if tag == 43 {
        Step::Done(RespValue::Simple(copy_range(s, pos + 1, end)), next)
    } else if tag == 45 {
        Step::Done(RespValue::Error(copy_range(s, pos + 1, end)), next)
    } else if tag == 58 {
        match parse_i64(rest) {
            Ok(v) => Step::Done(RespValue::Integer(v), next),
            Err(_) => Step::Invalid,
        }
    } else if tag == 36 {
        match parse_i64(rest) {
            Err(_) => Step::Invalid,
            Ok(n) => parse_bulk_len(s, next, n),
        }
    } else if tag == 42 {
        match parse_i64(rest) {
            Err(_) => Step::Invalid,
            Ok(n) => parse_array_len(s, next, n),
        }
    } else {
        Step::Invalid
    }
}

/// Parses `n` RESP2 values in a row, the first at `pos` of `s`.
pub fn parse_items_at(s: &[u8], pos: usize, n: u64) -> (r: Step<Vec<RespValue>>)
    requires
        pos <= s@.len(),
    ensures
        items_match(r, parse_items(s@, pos as int, n as nat)),
        r matches Step::Done(_, e) ==> pos <= e <= s@.len(),
    decreases s@.len() - pos, 1int, n,
{
    let mut items: Vec<RespValue> = Vec::new();
    let mut p = pos;
    let mut left = n;
    while left > 0
        invariant
            pos <= p <= s@.len(),
            left <= n,
            parse_items(s@, pos as int, n as nat) == prepend(
                frames_of(items@),
                parse_items(s@, p as int, left as nat),
            ),
        decreases left,
    {
        match parse_value_at(s, p) {
            Step::Incomplete => return Step::Incomplete,
            Step::Invalid => return Step::Invalid,
            Step::Done(v, e) => {
                let ghost f = v.frame();
                let ghost before = items@;
                items.push(v);
                proof {
                    assert(frames_of(items@) == frames_of(before) + seq![f]);
                    match parse_items(s@, e as int, (left - 1) as nat) {
                        ParsedItems::Done(fs, e2) => {
                            assert(frames_of(before) + (seq![f] + fs) == frames_of(items@) + fs);
                        },
                        _ => {},
                    }
                }
                p = e;
                left = left - 1;
            },
        }
    }
    assert(frames_of(items@) + Seq::<Frame>::empty() == frames_of(items@));
    Step::Done(items, p)
}

/// `t` stands in `s` from position `pos` on.
pub open spec fn occurs_at(s: Seq<u8>, pos: int, t: Seq<u8>) -> bool {
    0 <= pos && pos + t.len() <= s.len() && s.subrange(pos, pos + t.len()) == t
}

/// The frames that a run of bulk strings parses to.
pub open spec fn bulk_frames(args: Seq<Seq<u8>>) -> Seq<Frame> {
    args.map_values(|b: Seq<u8>| Frame::Bulk(Some(b)))
}

/// Every argument, and their number, fit a RESP2 integer.
pub open spec fn fits_frame(args: Seq<Seq<u8>>) -> bool {
    args.len() <= i64::MAX && forall|i: int| 0 <= i < args.len() ==> #[trigger] args[i].len() <= i64::MAX
}

proof fn lemma_find_lf_found(s: Seq<u8>, from: int, j: int)
    requires
        0 <= from <= j < s.len(),
        s[j] == LF,
        forall|i: int| from <= i < j ==> s[i] != LF,
    ensures
        find_lf(s, from) == Some(j),
    decreases j - from,
{
    if from < j {
        lemma_find_lf_found(s, from + 1, j);
    }
}

proof fn lemma_find_lf_none(s: Seq<u8>, from: int)
    requires
        0 <= from,
        forall|i: int| from <= i < s.len() ==> s[i] != LF,
    ensures
        find_lf(s, from) is None,
    decreases s.len() - from,
{
    if from < s.len() {
        lemma_find_lf_none(s, from + 1);
    }
}

proof fn lemma_decimal(n: nat)
    ensures
        decimal(n).len() >= 1,
        all_digits(decimal(n)),
        digits_value(decimal(n)) == n,
    decreases n,
{
    if n < 10 {
        assert(decimal(n).drop_last() =~= Seq::<u8>::empty());
        assert(decimal(n).last() == (48 + n) as u8);
        assert(digits_value(decimal(n)) == digits_value(decimal(n).drop_last()) * 10 + (decimal(n).last() - 48));
        assert(digits_value(Seq::<u8>::empty()) == 0);
    } else {
        lemma_decimal(n / 10);
        let d = decimal(n);
        assert(d.drop_last() == decimal(n / 10));
        assert(d.last() == (48 + n % 10) as u8);
        assert((n / 10) * 10 + n % 10 == n) by (nonlinear_arith);
        assert(digits_value(d) == digits_value(d.drop_last()) * 10 + (d.last() - 48));
        assert(all_digits(d)) by {
            assert forall|i: int| 0 <= i < d.len() implies is_digit(#[trigger] d[i]) by {
                if i < d.len() - 1 {
                    assert(d[i] == decimal(n / 10)[i]);
                }
            }
        }
    }
}

proof fn lemma_parse_decimal(n: nat)
    requires
        n <= i64::MAX,
    ensures
        parse_int(decimal(n)) == Some(n as i64),
{
    lemma_decimal(n);
    assert(is_digit(decimal(n)[0]));
}

/// The header line `<tag><decimal n>\r\n` at `pos`.
proof fn lemma_header_line(s: Seq<u8>, pos: int, tag: u8, n: nat)
    requires
        tag == 36 || tag == 42,
        occurs_at(s, pos, seq![tag] + decimal(n) + crlf()),
    ensures
        line_at(s, pos) == Line::Found(pos + 1 + decimal(n).len(), pos + 3 + decimal(n).len()),
        s.subrange(pos + 1, pos + 1 + decimal(n).len()) == decimal(n),
        s[pos] == tag,
{
    let d = decimal(n);
    let h = seq![tag] + d + crlf();
    lemma_decimal(n);
    let j = pos + 2 + d.len();
    assert(s.subrange(pos, pos + h.len())[j - pos] == s[j]);
    assert(s[j] == LF);
    assert forall|i: int| pos <= i < j implies s[i] != LF by {
        assert(s.subrange(pos, pos + h.len())[i - pos] == s[i]);
        if i > pos && i < j - 1 {
            assert(h[i - pos] == d[i - pos - 1]);
            assert(is_digit(d[i - pos - 1]));
        }
    }
    lemma_find_lf_found(s, pos, j);
    assert(s.subrange(pos, pos + h.len())[j - 1 - pos] == s[j - 1]);
    assert(s.subrange(pos, pos + h.len())[0] == s[pos]);
    assert(s.subrange(pos + 1, pos + 1 + d.len()) =~= d) by {
        assert forall|i: int| 0 <= i < d.len() implies s.subrange(pos + 1, pos + 1 + d.len())[i] == d[i] by {
            assert(s.subrange(pos, pos + h.len())[i + 1] == s[pos + 1 + i]);
            assert(h[i + 1] == d[i]);
        }
    }
}

proof fn lemma_parse_bulk(s: Seq<u8>, pos: int, b: Seq<u8>)
    requires
        b.len() <= i64::MAX,
        occurs_at(s, pos, bulk_frame(b)),
    ensures
        parse_value(s, pos) == Parsed::Done(Frame::Bulk(Some(b)), pos + bulk_frame(b).len()),
{
    let d = decimal(b.len());
    let h = seq![36u8] + d + crlf();
    let f = bulk_frame(b);
    assert(f == h + b + crlf());
    assert(s.subrange(pos, pos + h.len()) =~= h) by {
        assert forall|i: int| 0 <= i < h.len() implies s.subrange(pos, pos + h.len())[i] == h[i] by {
            assert(s.subrange(pos, pos + f.len())[i] == f[i]);
        }
    }
    lemma_header_line(s, pos, 36, b.len());
    lemma_parse_decimal(b.len());
    let next = pos + h.len();
    let n = b.len() as int;
    assert(s.subrange(pos, pos + f.len())[h.len() + n] == s[next + n]);
    assert(s.subrange(pos, pos + f.len())[h.len() + n + 1] == s[next + n + 1]);
    assert(s.subrange(next, next + n) =~= b) by {
        assert forall|i: int| 0 <= i < n implies s.subrange(next, next + n)[i] == b[i] by {
            assert(s.subrange(pos, pos + f.len())[h.len() + i] == s[next + i]);
        }
    }
}

proof fn lemma_parse_bulks(s: Seq<u8>, pos: int, args: Seq<Seq<u8>>)
    requires
        fits_frame(args),
        occurs_at(s, pos, bulks_frame(args)),
    ensures
        parse_items(s, pos, args.len()) == ParsedItems::Done(bulk_frames(args), pos + bulks_frame(args).len()),
    decreases args.len(),
{
    if args.len() > 0 {
        let f0 = bulk_frame(args[0]);
        let rest = args.drop_first();
        let all = bulks_frame(args);
        assert(all == f0 + bulks_frame(rest));
        assert(s.subrange(pos, pos + f0.len()) =~= f0) by {
            assert forall|i: int| 0 <= i < f0.len() implies s.subrange(pos, pos + f0.len())[i] == f0[i] by {
                assert(s.subrange(pos, pos + all.len())[i] == all[i]);
            }
        }
        lemma_parse_bulk(s, pos, args[0]);
        let p = pos + f0.len();
        assert(s.subrange(p, p + bulks_frame(rest).len()) =~= bulks_frame(rest)) by {
            assert forall|i: int| 0 <= i < bulks_frame(rest).len() implies s.subrange(p, p + bulks_frame(rest).len())[i] == bulks_frame(rest)[i] by {
                assert(s.subrange(pos, pos + all.len())[f0.len() + i] == all[f0.len() + i]);
            }
        }
        assert(fits_frame(rest)) by {
            assert forall|i: int| 0 <= i < rest.len() implies #[trigger] rest[i].len() <= i64::MAX by {
                assert(rest[i] == args[i + 1]);
            }
        }
        lemma_parse_bulks(s, p, rest);
        assert(seq![Frame::Bulk(Some(args[0]))] + bulk_frames(rest) =~= bulk_frames(args));
    } else {
        assert(bulk_frames(args) =~= Seq::<Frame>::empty());
    }
}

/// Encoding a command and parsing it back gives the same arguments; bytes
/// that follow the frame are left for the next one.
pub proof fn lemma_command_round_trip(args: Seq<Seq<u8>>, tail: Seq<u8>)
    requires
        fits_frame(args),
    ensures
        parse_value(command_frame(args) + tail, 0) == Parsed::Done(
            Frame::Array(bulk_frames(args)),
            command_frame(args).len() as int,
        ),
        command_args(Frame::Array(bulk_frames(args))) == Some(args),
{
    let s = command_frame(args) + tail;
    let d = decimal(args.len());
    let h = seq![42u8] + d + crlf();
    let cf = command_frame(args);
    assert(cf == h + bulks_frame(args));
    assert(s.subrange(0, h.len() as int) =~= h) by {
        assert forall|i: int| 0 <= i < h.len() implies s.subrange(0, h.len() as int)[i] == h[i] by {
            assert(s[i] == cf[i]);
        }
    }
    lemma_header_line(s, 0, 42, args.len());
    lemma_parse_decimal(args.len());
    let bf = bulks_frame(args);
    assert(s.subrange(h.len() as int, (h.len() + bf.len()) as int) =~= bf) by {
        assert forall|i: int| 0 <= i < bf.len() implies s.subrange(h.len() as int, (h.len() + bf.len()) as int)[i] == bf[i] by {
            assert(s[h.len() + i] == cf[h.len() + i]);
        }
    }
    lemma_parse_bulks(s, h.len() as int, args);
    if args.len() == 0 {
        assert(bulk_frames(args) =~= Seq::<Frame>::empty());
        assert(bf =~= Seq::<u8>::empty());
    }
    assert(bulk_args(bulk_frames(args)) == Some(args)) by {
        assert(bulk_frames(args).map_values(|f: Frame| f->Bulk_0->Some_0) =~= args);
    }
}

/// The arguments of an inbound command: an array of bulk strings, none null.
pub open spec fn command_args(f: Frame) -> Option<Seq<Seq<u8>>> {
    match f {
        Frame::Array(items) => bulk_args(items),
        _ => None,
    }
}

pub open spec fn bulk_args(items: Seq<Frame>) -> Option<Seq<Seq<u8>>> {
    if forall|i: int| 0 <= i < items.len() ==> (#[trigger] items[i] matches Frame::Bulk(Some(_))) {
        Some(items.map_values(|f: Frame| f->Bulk_0->Some_0))
    } else {
        None
    }
}

proof fn lemma_header_cut(s: Seq<u8>, pos: int, tag: u8, n: nat)
    requires
        0 <= pos <= s.len() < pos + (seq![tag] + decimal(n) + crlf()).len(),
        tag == 36 || tag == 42,
        s.subrange(pos, s.len() as int) == (seq![tag] + decimal(n) + crlf()).take(s.len() - pos),
    ensures
        line_at(s, pos) is Incomplete,
{
    let h = seq![tag] + decimal(n) + crlf();
    lemma_decimal(n);
    assert forall|i: int| pos <= i < s.len() implies s[i] != LF by {
        assert(s.subrange(pos, s.len() as int)[i - pos] == s[i]);
        assert(h.take(s.len() - pos)[i - pos] == h[i - pos]);
        if i > pos && i - pos < h.len() - 2 {
            assert(h[i - pos] == decimal(n)[i - pos - 1]);
            assert(is_digit(decimal(n)[i - pos - 1]));
        }
    }
    lemma_find_lf_none(s, pos);
}

proof fn lemma_bulk_cut(s: Seq<u8>, pos: int, b: Seq<u8>)
    requires
        b.len() <= i64::MAX,
        0 <= pos <= s.len() < pos + bulk_frame(b).len(),
        s.subrange(pos, s.len() as int) == bulk_frame(b).take(s.len() - pos),
    ensures
        parse_value(s, pos) is Incomplete,
{
    let d = decimal(b.len());
    let h = seq![36u8] + d + crlf();
    let f = bulk_frame(b);
    assert(f == h + b + crlf());
    if s.len() < pos + h.len() {
        assert(s.subrange(pos, s.len() as int) =~= h.take(s.len() - pos));
        lemma_header_cut(s, pos, 36, b.len());
    } else {
        assert(s.subrange(pos, pos + h.len()) =~= h) by {
            assert forall|i: int| 0 <= i < h.len() implies s.subrange(pos, pos + h.len())[i] == h[i] by {
                assert(s.subrange(pos, s.len() as int)[i] == f.take(s.len() - pos)[i]);
            }
        }
        lemma_header_line(s, pos, 36, b.len());
        lemma_parse_decimal(b.len());
    }
}

proof fn lemma_bulks_cut(s: Seq<u8>, pos: int, args: Seq<Seq<u8>>)
    requires
        fits_frame(args),
        0 <= pos <= s.len() < pos + bulks_frame(args).len(),
        s.subrange(pos, s.len() as int) == bulks_frame(args).take(s.len() - pos),
    ensures
        parse_items(s, pos, args.len()) is Incomplete,
    decreases args.len(),
{
    let all = bulks_frame(args);
    if args.len() == 0 {
        assert(all.len() == 0);
    } else {
        let f0 = bulk_frame(args[0]);
        let rest = args.drop_first();
        assert(all == f0 + bulks_frame(rest));
        if s.len() < pos + f0.len() {
            assert(s.subrange(pos, s.len() as int) =~= f0.take(s.len() - pos));
            lemma_bulk_cut(s, pos, args[0]);
        } else {
            assert(s.subrange(pos, pos + f0.len()) =~= f0) by {
                assert forall|i: int| 0 <= i < f0.len() implies s.subrange(pos, pos + f0.len())[i] == f0[i] by {
                    assert(s.subrange(pos, s.len() as int)[i] == all.take(s.len() - pos)[i]);
                }
            }
            lemma_parse_bulk(s, pos, args[0]);
            let p = pos + f0.len();
            assert(fits_frame(rest)) by {
                assert forall|i: int| 0 <= i < rest.len() implies #[trigger] rest[i].len() <= i64::MAX by {
                    assert(rest[i] == args[i + 1]);
                }
            }
            assert(s.subrange(p, s.len() as int) =~= bulks_frame(rest).take(s.len() - p)) by {
                assert forall|i: int| 0 <= i < s.len() - p implies s.subrange(p, s.len() as int)[i] == bulks_frame(rest).take(s.len() - p)[i] by {
                    assert(s.subrange(pos, s.len() as int)[f0.len() + i] == all.take(s.len() - pos)[f0.len() + i]);
                }
            }
            lemma_bulks_cut(s, p, rest);
        }
    }
}

/// A proper prefix of an encoded command parses as incomplete: the parser
/// neither fails nor produces a value on it.
pub proof fn lemma_command_prefix_incomplete(args: Seq<Seq<u8>>, k: int)
    requires
        fits_frame(args),
        0 <= k < command_frame(args).len(),
    ensures
        parse_value(command_frame(args).take(k), 0) is Incomplete,
{
    let cf = command_frame(args);
    let s = cf.take(k);
    let h = seq![42u8] + decimal(args.len()) + crlf();
    let bf = bulks_frame(args);
    assert(cf == h + bf);
    if k < h.len() {
        assert(s.subrange(0, s.len() as int) =~= h.take(k));
        lemma_header_cut(s, 0, 42, args.len());
    } else {
        assert(s.subrange(0, h.len() as int) =~= h);
        lemma_header_line(s, 0, 42, args.len());
        lemma_parse_decimal(args.len());
        assert(s.subrange(h.len() as int, s.len() as int) =~= bf.take(k - h.len()));
        lemma_bulks_cut(s, h.len() as int, args);
    }
}

/// Reads one reply from the start of `input`, which holds everything the
/// server sent. A reply cut short is a protocol error.
pub fn read_response(input: &[u8]) -> (r: ClientResult<RespValue>)
    ensures
        match parse_value(input@, 0) {
            Parsed::Done(f, _) => r matches Ok(v) && v.frame() == f,
            _ => r matches Err(ClientError::Protocol),
        },
{
    match parse_value_at(input, 0) {
        Step::Done(v, _) => Ok(v),
        _ => Err(ClientError::Protocol),
    }
}

/// Tries to parse one reply from the bytes received so far: `Ok(None)` when
/// more bytes are needed, else the reply and the number of bytes it took.
pub fn parse_response(input: &[u8]) -> (r: Result<Option<(RespValue, usize)>, RespError>)
    ensures
        match parse_value(input@, 0) {
            Parsed::Incomplete => r matches Ok(None),
            Parsed::Invalid => r matches Err(RespError::Protocol),
            Parsed::Done(f, e) => r matches Ok(Some((v, n))) && v.frame() == f && n == e,
        },
{
    match parse_value_at(input, 0) {
        Step::Incomplete => Ok(None),
        Step::Invalid => Err(RespError::Protocol),
        Step::Done(v, e) => Ok(Some((v, e))),
    }
}

/// The byte contents of a list of arguments.
pub open spec fn vecs_view(v: Seq<Vec<u8>>) -> Seq<Seq<u8>> {
    v.map_values(|x: Vec<u8>| x@)
}

/// Collects the payloads of an array of non-null bulk strings.
fn bulk_payloads(items: &Vec<RespValue>) -> (r: Option<Vec<Vec<u8>>>)
    ensures
        match bulk_args(frames_of(items@)) {
            Some(a) => r matches Some(v) && vecs_view(v@) == a,
            None => r is None,
        },
{
    let mut out: Vec<Vec<u8>> = Vec::new();
    let mut i: usize = 0;
    let ghost fs = frames_of(items@);
    while i < items.len()
        invariant
            i <= items@.len(),
            fs == frames_of(items@),
            out@.len() == i,
            forall|k: int| 0 <= k < i ==> (#[trigger] fs[k] matches Frame::Bulk(Some(_))),
            forall|k: int| 0 <= k < i ==> #[trigger] out@[k]@ == fs[k]->Bulk_0->Some_0,
        decreases items@.len() - i,
    {
        match &items[i] {
            RespValue::Bulk(Some(b)) => {
                let c = copy_range(b.as_slice(), 0, b.len());
                proof {
                    assert(b@.subrange(0, b@.len() as int) == b@);
                }
                out.push(c);
            },
            _ => {
                proof {
                    assert(!(fs[i as int] matches Frame::Bulk(Some(_))));
                }
                return None;
            },
        }
        i = i + 1;
    }
    proof {
        assert(vecs_view(out@) =~= fs.map_values(|f: Frame| f->Bulk_0->Some_0));
    }
    Some(out)
}

/// Streaming parser of inbound commands: each frame is an array of bulk
/// strings, and the bytes after it stay in the buffer for the next call.
pub struct RespParser {}

impl RespParser {
    pub fn new() -> (r: RespParser) {
        RespParser {  }
    }

    /// Takes one command off the front of `buf`. `Ok(None)` leaves `buf` as
    /// it was, to be retried when more bytes have arrived; a frame that is
    /// not an array of non-null bulk strings is a protocol error.
    pub fn parse(&mut self, buf: &mut Vec<u8>) -> (r: Result<Option<Vec<Vec<u8>>>, RespError>)
        ensures
            *final(self) == *old(self),
            match parse_value(old(buf)@, 0) {
                Parsed::Incomplete => r matches Ok(None) && final(buf)@ == old(buf)@,
                Parsed::Invalid => r matches Err(RespError::Protocol) && final(buf)@ == old(buf)@,
                Parsed::Done(f, e) => match command_args(f) {
                    Some(a) => r matches Ok(Some(v)) && vecs_view(v@) == a && final(buf)@ == old(buf)@.skip(e),
                    None => r matches Err(RespError::Protocol) && final(buf)@ == old(buf)@,
                },
            },
    {
        match parse_value_at(buf.as_slice(), 0) {
            Step::Incomplete => Ok(None),
            Step::Invalid => Err(RespError::Protocol),
            Step::Done(v, e) => {
                match v {
                    RespValue::Array(items) => {
                        proof {
                            lemma_array_frame(items);
                        }
                        match bulk_payloads(&items) {
                            None => Err(RespError::Protocol),
                            Some(args) => {
                                let rest = copy_range(buf.as_slice(), e, buf.len());
                                *buf = rest;
                                Ok(Some(args))
                            },
                        }
                    },
                    _ => Err(RespError::Protocol),
                }
            },
        }
    }
}

} // verus!
