//! Server metrics: request, error and in-flight counters, and a
//! fixed-bucket latency histogram. Counters wrap at `u64::MAX`, as atomic
//! adds do. Callers that share metrics between threads hold them behind a
//! lock.
use vstd::prelude::*;
use core::time::Duration;
use crate::clock::duration_micros;

verus! {

/// Default bucket bounds, microseconds.
pub const DEFAULT_LATENCY_BUCKETS_US: [u64; 12] = [1, 2, 5, 10, 20, 50, 100, 200, 500, 1000, 2000, 5000];

/// `x + y`, wrapping at 2^64.
pub open spec fn wrap_add(x: u64, y: u64) -> u64 {
    ((x as int + y as int) % 0x1_0000_0000_0000_0000int) as u64
}

/// `x - y`, wrapping at 2^64.
pub open spec fn wrap_sub(x: u64, y: u64) -> u64 {
    ((x as int - y as int + 0x1_0000_0000_0000_0000int) % 0x1_0000_0000_0000_0000int) as u64
}

fn add_wrapping(x: u64, y: u64) -> (r: u64)
    ensures
        r == wrap_add(x, y),
{
    if x <= u64::MAX - y {
        x + y
    } else {
        y - (u64::MAX - x) - 1
    }
}

fn sub_wrapping(x: u64, y: u64) -> (r: u64)
    ensures
        r == wrap_sub(x, y),
{
    if x >= y {
        x - y
    } else {
        u64::MAX - (y - x) + 1
    }
}

/// Point-in-time values of all metrics.
#[derive(Debug, Clone)]
pub struct MetricsSnapshot {
    /// Requests observed.
    pub requests_total: u64,
    /// Error replies observed.
    pub errors_total: u64,
    /// Requests in flight.
    pub inflight: u64,
    /// The latency histogram.
    pub latency: LatencySnapshot,
}

/// Point-in-time values of the latency histogram.
#[derive(Debug, Clone)]
pub struct LatencySnapshot {
    /// Bucket upper bounds, microseconds.
    pub bounds_us: Vec<u64>,
    /// Bucket counts; the last one counts samples past every bound.
    pub buckets: Vec<u64>,
    /// Number of samples.
    pub samples: u64,
    /// Sum of the samples, microseconds.
    pub sum_us: u64,
}

/// The bucket of a sample: the first whose bound is at least `micros`, or
/// the overflow bucket `bounds.len()`.
pub open spec fn bucket_of(bounds: Seq<u64>, micros: u64) -> int
    decreases bounds.len(),
{
    if bounds.len() == 0 {
        0
    } else if micros <= bounds[0] {
        0
    } else {
        1 + bucket_of(bounds.drop_first(), micros)
    }
}

/// The bucket that a sample of `micros` falls in.
pub fn bucket_index(bounds: &[u64], micros: u64) -> (r: usize)
    ensures
        r == bucket_of(bounds@, micros),
        r <= bounds@.len(),
{
    let mut i: usize = 0;
    assert(bounds@.skip(0) == bounds@);
    while i < bounds.len()
        invariant
            i <= bounds@.len(),
            bucket_of(bounds@, micros) == i + bucket_of(bounds@.skip(i as int), micros),
        decreases bounds@.len() - i,
    {
        if micros <= bounds[i] {
            assert(bounds@.skip(i as int)[0] == bounds@[i as int]);
            return i;
        }
        assert(bounds@.skip(i as int).drop_first() == bounds@.skip(i + 1));
        i = i + 1;
    }
    assert(bounds@.skip(i as int).len() == 0);
    i
}

/// A copy of `v`.
fn copy_u64s(v: &Vec<u64>) -> (r: Vec<u64>)
    ensures
        r@ == v@,
{
    let mut out: Vec<u64> = Vec::new();
    let mut j: usize = 0;
    while j < v.len()
        invariant
            j <= v@.len(),
            out@ == v@.take(j as int),
        decreases v@.len() - j,
    {
        out.push(v[j]);
        j = j + 1;
        assert(out@ =~= v@.take(j as int));
    }
    assert(v@.take(j as int) == v@);
    out
}

/// Fixed-bucket latency histogram.
pub struct LatencyHistogram {
    bounds_us: Vec<u64>,
    buckets: Vec<u64>,
    sum_us: u64,
    samples: u64,
}

impl LatencyHistogram {
    /// The bucket bounds.
    pub closed spec fn bounds(&self) -> Seq<u64> {
        self.bounds_us@
    }

    /// The bucket counts, the overflow bucket last.
    pub closed spec fn counts(&self) -> Seq<u64> {
        self.buckets@
    }

    /// The number of samples.
    pub closed spec fn sample_count(&self) -> u64 {
        self.samples
    }

    /// The sum of the samples, microseconds.
    pub closed spec fn sum(&self) -> u64 {
        self.sum_us
    }

    /// One counter per bucket, and one for overflow.
    pub open spec fn wf(&self) -> bool {
        self.counts().len() == self.bounds().len() + 1
    }

    /// A histogram with `bounds_us.len() + 1` zeroed buckets.
    pub fn new(bounds_us: Vec<u64>) -> (r: LatencyHistogram)
        requires
            bounds_us@.len() < usize::MAX,
        ensures
            r.wf(),
            r.bounds() == bounds_us@,
            r.counts() == Seq::new(bounds_us@.len() + 1, |i: int| 0u64),
            r.sample_count() == 0,
            r.sum() == 0,
    {
        let mut buckets: Vec<u64> = Vec::new();
        let n = bounds_us.len() + 1;
        let mut i: usize = 0;
        while i < n
            invariant
                i <= n,
                buckets@ == Seq::new(i as nat, |j: int| 0u64),
            decreases n - i,
        {
            buckets.push(0);
            i = i + 1;
            assert(buckets@ =~= Seq::new(i as nat, |j: int| 0u64));
        }
        LatencyHistogram { bounds_us, buckets, sum_us: 0, samples: 0 }
    }

    /// Counts one sample of `micros` microseconds: the sample count, the
    /// sum, and the sample's bucket each grow.
    pub fn record_micros(&mut self, micros: u64)
        requires
            old(self).wf(),
        ensures
            final(self).wf(),
            final(self).bounds() == old(self).bounds(),
            final(self).sample_count() == wrap_add(old(self).sample_count(), 1),
            final(self).sum() == wrap_add(old(self).sum(), micros),
            final(self).counts() == old(self).counts().update(
                bucket_of(old(self).bounds(), micros),
                wrap_add(old(self).counts()[bucket_of(old(self).bounds(), micros)], 1),
            ),
    {
        self.samples = add_wrapping(self.samples, 1);
        self.sum_us = add_wrapping(self.sum_us, micros);
        let idx = bucket_index(self.bounds_us.as_slice(), micros);
        let c = self.buckets[idx];
        self.buckets.set(idx, add_wrapping(c, 1));
    }

    /// Counts one sample, its latency in whole microseconds (saturating).
    pub fn record(&mut self, latency: Duration)
        requires
            old(self).wf(),
        ensures
            final(self).wf(),
            final(self).bounds() == old(self).bounds(),
            final(self).sample_count() == wrap_add(old(self).sample_count(), 1),
            exists|micros: u64|
                final(self).sum() == wrap_add(old(self).sum(), micros) && final(self).counts() == old(self).counts().update(
                    bucket_of(old(self).bounds(), micros),
                    wrap_add(old(self).counts()[bucket_of(old(self).bounds(), micros)], 1),
                ),
    {
        let micros = duration_micros(&latency);
        let micros: u64 = if micros > u64::MAX as u128 {
            u64::MAX
        } else {
            micros as u64
        };
        self.record_micros(micros);
    }

    /// The current counts, with a copy of the bounds.
    pub fn snapshot(&self) -> (r: LatencySnapshot)
        ensures
            r.bounds_us@ == self.bounds(),
            r.buckets@ == self.counts(),
            r.samples == self.sample_count(),
            r.sum_us == self.sum(),
    {
        LatencySnapshot {
            bounds_us: copy_u64s(&self.bounds_us),
            buckets: copy_u64s(&self.buckets),
            samples: self.samples,
            sum_us: self.sum_us,
        }
    }
}

/// Request, error and in-flight counters with a latency histogram.
pub struct Metrics {
    requests_total: u64,
    errors_total: u64,
    inflight: u64,
    latency: LatencyHistogram,
}

impl Metrics {
    pub closed spec fn requests(&self) -> u64 {
        self.requests_total
    }

    pub closed spec fn errors(&self) -> u64 {
        self.errors_total
    }

    pub closed spec fn in_flight(&self) -> u64 {
        self.inflight
    }

    pub closed spec fn histogram(&self) -> LatencyHistogram {
        self.latency
    }

    pub open spec fn wf(&self) -> bool {
        self.histogram().wf()
    }

    /// Metrics with the default latency buckets.
    pub fn new() -> (r: Metrics)
        ensures
            r.wf(),
            r.histogram().bounds() == seq![1u64, 2, 5, 10, 20, 50, 100, 200, 500, 1000, 2000, 5000],
            r.histogram().sample_count() == 0,
            r.requests() == 0 && r.errors() == 0 && r.in_flight() == 0,
    {
        let mut bounds: Vec<u64> = Vec::new();
        let mut i: usize = 0;
        while i < 12
            invariant
                i <= 12,
                bounds@ == DEFAULT_LATENCY_BUCKETS_US@.take(i as int),
            decreases 12 - i,
        {
            bounds.push(DEFAULT_LATENCY_BUCKETS_US[i]);
            i = i + 1;
            assert(bounds@ =~= DEFAULT_LATENCY_BUCKETS_US@.take(i as int));
        }
        assert(bounds@ =~= seq![1u64, 2, 5, 10, 20, 50, 100, 200, 500, 1000, 2000, 5000]);
        Self::with_latency_buckets(bounds)
    }

    /// Metrics with the given ascending bucket bounds, in microseconds.
    pub fn with_latency_buckets(bounds_us: Vec<u64>) -> (r: Metrics)
        requires
            bounds_us@.len() < usize::MAX,
        ensures
            r.wf(),
            r.histogram().bounds() == bounds_us@,
            r.histogram().sample_count() == 0,
            r.requests() == 0 && r.errors() == 0 && r.in_flight() == 0,
    {
        Metrics { requests_total: 0, errors_total: 0, inflight: 0, latency: LatencyHistogram::new(bounds_us) }
    }

    /// Counts a request and one more in flight.
    pub fn record_request_start(&mut self)
        ensures
            final(self).requests() == wrap_add(old(self).requests(), 1),
            final(self).in_flight() == wrap_add(old(self).in_flight(), 1),
            final(self).errors() == old(self).errors(),
            final(self).histogram() == old(self).histogram(),
    {
        self.requests_total = add_wrapping(self.requests_total, 1);
        self.inflight = add_wrapping(self.inflight, 1);
    }

    /// One fewer in flight, and the request's latency.
    pub fn record_request_end(&mut self, latency: Duration)
        requires
            old(self).wf(),
        ensures
            final(self).wf(),
            final(self).in_flight() == wrap_sub(old(self).in_flight(), 1),
            final(self).requests() == old(self).requests(),
            final(self).errors() == old(self).errors(),
            final(self).histogram().bounds() == old(self).histogram().bounds(),
            final(self).histogram().sample_count() == wrap_add(old(self).histogram().sample_count(), 1),
    {
        self.inflight = sub_wrapping(self.inflight, 1);
        self.latency.record(latency);
    }

    /// Counts an error reply.
    pub fn record_error(&mut self)
        ensures
            final(self).errors() == wrap_add(old(self).errors(), 1),
            final(self).requests() == old(self).requests(),
            final(self).in_flight() == old(self).in_flight(),
            final(self).histogram() == old(self).histogram(),
    {
        self.errors_total = add_wrapping(self.errors_total, 1);
    }

    /// The current values of all counters and of the histogram.
    pub fn snapshot(&self) -> (r: MetricsSnapshot)
        ensures
            r.requests_total == self.requests(),
            r.errors_total == self.errors(),
            r.inflight == self.in_flight(),
            r.latency.bounds_us@ == self.histogram().bounds(),
            r.latency.buckets@ == self.histogram().counts(),
            r.latency.samples == self.histogram().sample_count(),
            r.latency.sum_us == self.histogram().sum(),
    {
        MetricsSnapshot {
            requests_total: self.requests_total,
            errors_total: self.errors_total,
            inflight: self.inflight,
            latency: self.latency.snapshot(),
        }
    }
}

} // verus!
