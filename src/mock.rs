//! A reference backend that answers every query with one synthetic series.
use vstd::prelude::*;

use crate::codec::{to_u64, u64_of};
use crate::storage::RemoteStorage;
use crate::types::{
    Label, LabelView, Query, QueryResult, QueryResultView, QueryView, Sample, TimeSeries, TimeSeriesView,
    WriteRequest,
};

verus! {

/// `2` to the power `e`.
pub open spec fn exp2(e: nat) -> nat
    decreases e,
{
    if e == 0 {
        1
    } else {
        2 * exp2((e - 1) as nat)
    }
}

/// The position of the highest set bit of `n`.
pub open spec fn log2(n: nat) -> nat
    decreases n,
{
    if n < 2 {
        0
    } else {
        1 + log2(n / 2)
    }
}

/// The IEEE-754 double bit pattern of the integer `n`, for `1 <= n <= 2^53`,
/// where every such integer is exact: biased exponent `1023 + e` and the bits
/// of `n` below its leading one as the fraction, with `e = log2(n)`.
pub open spec fn double_bits(n: nat) -> nat {
    let e = log2(n);
    ((1023 + e) * exp2(52) + (n - exp2(e)) * exp2((52 - e) as nat)) as nat
}

/// `2^log2(n) <= n < 2^(log2(n) + 1)`.
proof fn lemma_log2_bounds(n: nat)
    requires
        n >= 1,
    ensures
        exp2(log2(n)) <= n < exp2(log2(n) + 1),
    decreases n,
{
    if n >= 2 {
        lemma_log2_bounds(n / 2);
        let e = log2(n / 2);
        assert(log2(n) == e + 1);
        assert(exp2(e + 1) == 2 * exp2(e));
        assert(exp2(e + 2) == 2 * exp2(e + 1));
    } else {
        assert(exp2(1) == 2 * exp2(0));
    }
}

/// The powers of two around a double's fraction.
proof fn lemma_exp2_53()
    ensures
        exp2(52) == 0x10_0000_0000_0000,
        exp2(53) == 0x20_0000_0000_0000,
{
    reveal_with_fuel(exp2, 54);
}

/// Powers of two grow with the exponent.
proof fn lemma_exp2_monotone(a: nat, b: nat)
    requires
        a <= b,
    ensures
        exp2(a) <= exp2(b),
    decreases b,
{
    if a < b {
        lemma_exp2_monotone(a, (b - 1) as nat);
    }
}

/// The bit pattern of the double that equals `n`.
pub fn count_to_double_bits(n: u64) -> (r: u64)
    requires
        1 <= n < 0x20_0000_0000_0000,
    ensures
        r as nat == double_bits(n as nat),
{
    let mut x = n;
    let mut e: u64 = 0;
    let mut p: u64 = 1;
    assert(exp2(0) == 1);
    while x >= 2
        invariant
            1 <= x,
            log2(n as nat) == e + log2(x as nat),
            p as nat == exp2(e as nat),
            p * x <= n,
            n < p * (x + 1),
            e < p,
            n < 0x20_0000_0000_0000,
        decreases x,
    {
        assert(p as nat * 2 * (x as nat / 2) <= p as nat * x as nat) by (nonlinear_arith);
        assert(p as nat * (x as nat + 1) <= p as nat * 2 * (x as nat / 2 + 1)) by (nonlinear_arith);
        assert(p as nat * 2 <= p as nat * x as nat) by (nonlinear_arith)
            requires
                x >= 2,
        ;
        x = x / 2;
        p = p * 2;
        e = e + 1;
    }
    assert(x == 1);
    proof {
        lemma_exp2_53();
        if e > 52 {
            lemma_exp2_monotone(53, e as nat);
        }
    }
    let mut m = n - p;
    let mut k: u64 = e;
    assert(exp2((k - e) as nat) == 1) by {
        assert((k - e) as nat == 0);
        assert(exp2(0) == 1);
    }
    assert(m as nat == (n - p) as nat * exp2((k - e) as nat));
    while k < 52
        invariant
            e <= k <= 52,
            m as nat == (n - p) as nat * exp2((k - e) as nat),
            m < exp2(k as nat),
            p as nat == exp2(e as nat),
        decreases 52 - k,
    {
        proof {
            lemma_exp2_53();
            lemma_exp2_monotone(k as nat + 1, 52);
            assert(exp2((k + 1 - e) as nat) == 2 * exp2((k - e) as nat));
            assert(m as nat * 2 == (n - p) as nat * exp2((k + 1 - e) as nat)) by (nonlinear_arith)
                requires
                    m as nat == (n - p) as nat * exp2((k - e) as nat),
                    exp2((k + 1 - e) as nat) == 2 * exp2((k - e) as nat),
            ;
        }
        m = m * 2;
        k = k + 1;
    }
    proof {
        lemma_exp2_53();
    }
    (1023 + e) * 0x10_0000_0000_0000 + m
}

/// Samples from `ts` up to (not including) `end`, `u` apart, the `k`-th
/// valued `k + 1`.
pub open spec fn ramp(ts: int, end: int, u: nat, k: nat) -> Seq<Sample>
    decreases if ts < end { end - ts } else { 0 },
{
    if ts >= end || u == 0 {
        Seq::empty()
    } else {
        seq![Sample { value_bits: double_bits(k + 1) as u64, timestamp: ts as i64 }] + ramp(ts + u, end, u, k + 1)
    }
}

/// The samples that the reference backend generates: for a zero step, one
/// sample valued 1 at `start`; otherwise samples from `start` up to `end`, the
/// step apart (a negative step read as its 64-bit two's complement), valued
/// 1, 2, 3, ...
pub open spec fn sample_plan(start: i64, end: i64, step: i64) -> Seq<Sample> {
    if step == 0 {
        seq![Sample { value_bits: double_bits(1) as u64, timestamp: start }]
    } else {
        ramp(start as int, end as int, u64_of(step) as nat, 0)
    }
}

/// The plan holds fewer than `2^53` samples, so that every value is an exact
/// double.
pub open spec fn plan_fits(start: i64, end: i64, step: i64) -> bool {
    step == 0 || end - start <= u64_of(step) * 0x1F_FFFF_FFFF_FFFF
}

/// Generates the samples of `sample_plan`.
pub fn generate_samples(start_ms: i64, end_ms: i64, step_ms: i64) -> (r: Vec<Sample>)
    requires
        plan_fits(start_ms, end_ms, step_ms),
    ensures
        r@ == sample_plan(start_ms, end_ms, step_ms),
{
    let mut out: Vec<Sample> = Vec::new();
    if step_ms == 0 {
        let bits = count_to_double_bits(1);
        out.push(Sample { value_bits: bits, timestamp: start_ms });
        assert(out@ =~= sample_plan(start_ms, end_ms, step_ms));
        return out;
    }
    let u = to_u64(step_ms);
    let ghost plan = sample_plan(start_ms, end_ms, step_ms);
    let mut ts: i64 = start_ms;
    let mut k: u64 = 0;
    assert(out@ + ramp(ts as int, end_ms as int, u as nat, 0) =~= plan);
    while ts < end_ms
        invariant
            step_ms != 0,
            u == u64_of(step_ms),
            u >= 1,
            plan == sample_plan(start_ms, end_ms, step_ms),
            plan_fits(start_ms, end_ms, step_ms),
            ts as int == start_ms as int + k as int * u as int,
            plan == out@ + ramp(ts as int, end_ms as int, u as nat, k as nat),
        decreases end_ms - ts,
    {
        assert(k as int * (u as int) < u as int * 0x1F_FFFF_FFFF_FFFF);
        assert(k < 0x1F_FFFF_FFFF_FFFF) by (nonlinear_arith)
            requires
                k as int * (u as int) < u as int * 0x1F_FFFF_FFFF_FFFF,
                u >= 1,
        ;
        let bits = count_to_double_bits(k + 1);
        let ghost before = out@;
        out.push(Sample { value_bits: bits, timestamp: ts });
        assert(before + ramp(ts as int, end_ms as int, u as nat, k as nat) =~= out@ + ramp(
            ts + u,
            end_ms as int,
            u as nat,
            (k + 1) as nat,
        ));
        let next = ts as i128 + u as i128;
        if next >= end_ms as i128 {
            assert(out@ + ramp(next as int, end_ms as int, u as nat, (k + 1) as nat) =~= out@);
            return out;
        }
        assert((k + 1) as int * u as int == k as int * u as int + u as int) by (nonlinear_arith);
        ts = next as i64;
        k = k + 1;
    }
    assert(out@ + ramp(ts as int, end_ms as int, u as nat, k as nat) =~= out@);
    out
}

/// The step of a query: its hint's step; without hints, 0, an instant query.
pub open spec fn step_of(q: QueryView) -> i64 {
    match q.hints {
        Some(h) => h.step_ms,
        None => 0,
    }
}

/// The one series with which the reference backend answers `q`.
pub open spec fn mock_series(q: QueryView) -> TimeSeriesView {
    TimeSeriesView {
        labels: seq![
            LabelView { name: "job"@, value: "mock-remote"@ },
            LabelView { name: "instance"@, value: "127.0.0.1:9201"@ },
            LabelView { name: "__name__"@, value: "up"@ },
        ],
        samples: sample_plan(q.start_timestamp_ms, q.end_timestamp_ms, step_of(q)),
    }
}

/// A label from two string literals.
fn label(name: &str, value: &str) -> (r: Label)
    ensures
        r@ == (LabelView { name: name@, value: value@ }),
{
    Label { name: name.to_owned(), value: value.to_owned() }
}

/// A backend that stores nothing and answers every query with one series,
/// `up{job="mock-remote", instance="127.0.0.1:9201"}`, sampled per
/// `sample_plan`.
pub struct MockStorage;

impl RemoteStorage for MockStorage {
    type Err = String;

    type Context = u64;

    open spec fn answers(&self, ctx: &u64, q: QueryView, r: Result<QueryResultView, String>) -> bool {
        if plan_fits(q.start_timestamp_ms, q.end_timestamp_ms, step_of(q)) {
            r == Ok::<QueryResultView, String>(QueryResultView { timeseries: seq![mock_series(q)] })
        } else {
            r is Err
        }
    }

    fn write(&self, ctx: u64, req: WriteRequest) -> (r: Result<(), String>)
        ensures
            r is Ok,
    {
        Ok(())
    }

    fn process_query(&self, ctx: &u64, q: Query) -> (r: Result<QueryResult, String>) {
        let step = match &q.hints {
            Some(h) => h.step_ms,
            None => 0,
        };
        let start = q.start_timestamp_ms;
        let end = q.end_timestamp_ms;
        if step != 0 && end as i128 - start as i128 > to_u64(step) as i128 * 0x1F_FFFF_FFFF_FFFF {
            return Err("the query spans too many samples".to_owned());
        }
        let samples = generate_samples(start, end, step);
        let mut labels: Vec<Label> = Vec::new();
        labels.push(label("job", "mock-remote"));
        labels.push(label("instance", "127.0.0.1:9201"));
        labels.push(label("__name__", "up"));
        let series = TimeSeries { labels, samples };
        let mut timeseries: Vec<TimeSeries> = Vec::new();
        timeseries.push(series);
        let out = QueryResult { timeseries };
        assert(out@.timeseries[0].labels =~= mock_series(q@).labels);
        assert(out@.timeseries =~= seq![mock_series(q@)]);
        Ok(out)
    }
}

} // verus!
