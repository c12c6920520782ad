//! Deterministic workload pieces of the engine benchmark: argument
//! parsing, key-count normalisation, a xorshift generator, and key/value
//! buffers seeded with a counter.
use vstd::prelude::*;
use vstd::utf8::encode_utf8;
use crate::engine::normalize_shard_count;
use crate::resp::{all_digits, digits_value, is_digit};

verus! {

/// What std's `usize::from_str` accepts: an optional `+`, then one or more
/// digits, with a value that fits.
pub open spec fn parse_decimal(b: Seq<u8>) -> Option<usize> {
    let d = if b.len() > 0 && b[0] == 43 {
        b.drop_first()
    } else {
        b
    };
    if d.len() > 0 && all_digits(d) && digits_value(d) <= usize::MAX {
        Some(digits_value(d) as usize)
    } else {
        None
    }
}

proof fn lemma_digits_value_monotone(d: Seq<u8>)
    requires
        d.len() > 0,
        all_digits(d),
    ensures
        digits_value(d) >= digits_value(d.drop_last()) * 10,
        digits_value(d.drop_last()) >= 0,
    decreases d.len(),
{
    if d.len() > 1 {
        lemma_digits_value_monotone(d.drop_last());
    }
    assert(is_digit(d[d.len() - 1]));
}

proof fn lemma_digits_value_prefix(d: Seq<u8>, i: int)
    requires
        0 <= i <= d.len(),
        all_digits(d),
    ensures
        digits_value(d) >= digits_value(d.take(i)),
        digits_value(d.take(i)) >= 0,
    decreases d.len() - i,
{
    if i == d.len() {
        assert(d.take(i) == d);
        if d.len() > 0 {
            lemma_digits_value_monotone(d);
        }
    } else {
        lemma_digits_value_prefix(d, i + 1);
        let t = d.take(i + 1);
        assert(t.drop_last() == d.take(i));
        assert(all_digits(t));
        lemma_digits_value_monotone(t);
    }
}

/// Parses a decimal count as `usize::from_str` does.
fn parse_decimal_bytes(b: &[u8]) -> (r: Option<usize>)
    ensures
        r == parse_decimal(b@),
{
    let mut i: usize = 0;
    if b.len() > 0 && b[0] == 43 {
        i = 1;
    }
    let start = i;
    let ghost d = b@.skip(start as int);
    proof {
        if start == 1 {
            assert(d == b@.drop_first());
        } else {
            assert(d == b@);
        }
    }
    if start == b.len() {
        return None;
    }
    let mut value: usize = 0;
    while i < b.len()
        invariant
            start <= i <= b@.len(),
            d == b@.skip(start as int),
            d == (if b@.len() > 0 && b@[0] == 43 {
                b@.drop_first()
            } else {
                b@
            }),
            d.len() > 0,
            all_digits(d.take(i - start)),
            value == digits_value(d.take(i - start)),
        decreases b@.len() - i,
    {
        let c = b[i];
        if c < 48 || c > 57 {
            proof {
                assert(d[i - start] == c);
                assert(!is_digit(d[i - start]));
                assert(!all_digits(d));
                assert(parse_decimal(b@) is None);
            }
            return None;
        }
        let ghost prev = d.take(i - start);
        let ghost next = d.take(i - start + 1);
        proof {
            assert(next.drop_last() == prev);
            assert(next.last() == c);
            assert(all_digits(next)) by {
                assert forall|j: int| 0 <= j < next.len() implies is_digit(#[trigger] next[j]) by {
                    if j < prev.len() {
                        assert(next[j] == prev[j]);
                    }
                }
            }
        }
        let step = match value.checked_mul(10) {
            Some(v) => v,
            None => {
                proof {
                    if all_digits(d) {
                        lemma_digits_value_prefix(d, i - start + 1);
                        lemma_digits_value_monotone(next);
                    }
                    assert(parse_decimal(b@) is None);
                }
                return None;
            },
        };
        value = match step.checked_add((c - 48) as usize) {
            Some(v) => v,
            None => {
                proof {
                    if all_digits(d) {
                        lemma_digits_value_prefix(d, i - start + 1);
                    }
                    assert(parse_decimal(b@) is None);
                }
                return None;
            },
        };
        i = i + 1;
    }
    assert(d.take(i - start) == d);
    Some(value)
}

/// The count in `value`, or `fallback` when it is absent or not a count.
pub fn parse_usize(value: Option<String>, fallback: usize) -> (r: usize)
    ensures
        match value {
            Some(s) => r == (match parse_decimal(encode_utf8(s@)) {
                Some(n) => n,
                None => fallback,
            }),
            None => r == fallback,
        },
{
    match value {
        Some(raw) => match parse_decimal_bytes(raw.as_str().as_bytes()) {
            Some(n) => n,
            None => fallback,
        },
        None => fallback,
    }
}

/// The least power of two that is at least `value`, and at least 1.
pub fn normalize_power_of_two(value: usize) -> (r: usize)
    requires
        value <= usize::MAX / 2 + 1,
    ensures
        crate::engine::is_power_of_two(r as nat),
        r >= value,
        r >= 1,
        r == 1 || r / 2 < value,
{
    normalize_shard_count(value)
}

/// The default shard count: four per thread of the machine, one thread
/// when that is unknown.
pub fn default_shard_count(parallelism: Option<usize>) -> (r: usize)
    ensures
        r == (match parallelism {
            Some(p) => if p * 4 > usize::MAX { usize::MAX as int } else { p * 4 },
            None => 4,
        }),
{
    let threads = match parallelism {
        Some(p) => p,
        None => 1,
    };
    if threads > usize::MAX / 4 {
        usize::MAX
    } else {
        threads * 4
    }
}

/// One step of the xorshift64 generator.
pub open spec fn xorshift(x: u64) -> u64 {
    let a = x ^ (x << 13u64);
    let b = a ^ (a >> 7u64);
    b ^ (b << 17u64)
}

/// A small deterministic generator, for reproducible workloads.
pub struct XorShift64 {
    pub state: u64,
}

impl XorShift64 {
    pub fn new(seed: u64) -> (r: XorShift64)
        ensures
            r.state == seed,
    {
        XorShift64 { state: seed }
    }

    /// Advances the state and returns it.
    pub fn next_u64(&mut self) -> (r: u64)
        ensures
            r == xorshift(old(self).state),
            final(self).state == r,
    {
        let mut x = self.state;
        x = x ^ (x << 13u64);
        x = x ^ (x >> 7u64);
        x = x ^ (x << 17u64);
        self.state = x;
        x
    }

    /// The next value masked to an index.
    pub fn next_index(&mut self, mask: usize) -> (r: usize)
        ensures
            r == ((xorshift(old(self).state) as usize) & mask),
            r <= mask,
            final(self).state == xorshift(old(self).state),
    {
        let x = self.next_u64() as usize;
        assert(x & mask <= mask) by (bit_vector);
        x & mask
    }
}

/// Byte `i` of `value` in little-endian order.
pub open spec fn le_byte(value: u64, i: int) -> u8 {
    ((value >> (8 * i) as u64) & 0xff) as u8
}

/// Writes the little-endian bytes of `value` to the front of `buffer`, as
/// many as fit.
pub fn write_u64_le(value: u64, buffer: &mut Vec<u8>)
    ensures
        final(buffer)@.len() == old(buffer)@.len(),
        forall|i: int| 0 <= i < final(buffer)@.len() ==> #[trigger] final(buffer)@[i] == (if i < 8 {
            le_byte(value, i)
        } else {
            old(buffer)@[i]
        }),
{
    let n = if buffer.len() < 8 {
        buffer.len()
    } else {
        8
    };
    let mut i: usize = 0;
    while i < n
        invariant
            n <= 8,
            n <= buffer@.len(),
            i <= n,
            buffer@.len() == old(buffer)@.len(),
            n == buffer@.len() || n == 8,
            forall|j: int| 0 <= j < buffer@.len() ==> #[trigger] buffer@[j] == (if j < i {
                le_byte(value, j)
            } else {
                old(buffer)@[j]
            }),
        decreases n - i,
    {
        let shift: u64 = 8 * i as u64;
        let byte = ((value >> shift) & 0xff) as u8;
        buffer.set(i, byte);
        i = i + 1;
    }
}

/// `count` buffers of `size` zero bytes, buffer `i` starting with the
/// little-endian bytes of `seed ^ i`.
pub fn build_buffers(count: usize, size: usize, seed: u64) -> (r: Vec<Vec<u8>>)
    ensures
        r@.len() == count,
        forall|i: int| 0 <= i < count ==> (#[trigger] r@[i])@.len() == size,
        forall|i: int, j: int|
            0 <= i < count && 0 <= j < size ==> #[trigger] r@[i]@[j] == (if j < 8 {
                le_byte(seed ^ (i as u64), j)
            } else {
                0u8
            }),
{
    let mut buffers: Vec<Vec<u8>> = Vec::new();
    let mut i: usize = 0;
    while i < count
        invariant
            i <= count,
            buffers@.len() == i,
            forall|k: int| 0 <= k < i ==> (#[trigger] buffers@[k])@.len() == size,
            forall|k: int, j: int|
                0 <= k < i && 0 <= j < size ==> #[trigger] buffers@[k]@[j] == (if j < 8 {
                    le_byte(seed ^ (k as u64), j)
                } else {
                    0u8
                }),
        decreases count - i,
    {
        let mut buffer: Vec<u8> = vec![0u8; size];
        write_u64_le(seed ^ (i as u64), &mut buffer);
        buffers.push(buffer);
        i = i + 1;
    }
    buffers
}

} // verus!
