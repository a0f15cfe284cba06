//! The remote storage messages on the wire: what each message's bytes decode
//! to and encode from, and the snappy framing around them.
use vstd::prelude::*;
use vstd::utf8::{decode_utf8, encode_utf8, valid_utf8};

use crate::types::{
    Error, Label, LabelMatcher, LabelMatcherView, LabelView, Query, QueryResult, QueryResultView, QueryView,
    ReadHints, ReadHintsView, ReadRequest, ReadRequestView, ReadResponse, ReadResponseView, Sample,
    TimeSeries, TimeSeriesView, WriteRequest, WriteRequestView,
};
use crate::wire::{
    decode_fields, encode_fields, fold_steps, le_bytes, le_value, lemma_decode_encoded,
    lemma_encode_fields_push, lemma_fixed64_round_trip, lemma_fold_steps_append, lemma_parse_field_len,
    lemma_payload_within, parse_field, read_field, wf_field, write_bytes_field, write_fixed64, write_key,
    write_varint, Field, Wire, WireValue,
};

verus! {

/// A 64-bit varint read as a two's complement `int64`.
pub open spec fn i64_of(v: u64) -> i64 {
    if v < 0x8000_0000_0000_0000 {
        v as i64
    } else {
        (v - 0x1_0000_0000_0000_0000) as i64
    }
}

/// An `int64` as the 64-bit varint value that carries it.
pub open spec fn u64_of(t: i64) -> u64 {
    if t >= 0 {
        t as u64
    } else {
        (t + 0x1_0000_0000_0000_0000) as u64
    }
}

/// A varint read as an `int32`: its low 32 bits in two's complement.
pub open spec fn i32_of(v: u64) -> i32 {
    let w = v % 0x1_0000_0000;
    if w < 0x8000_0000 {
        w as i32
    } else {
        (w - 0x1_0000_0000) as i32
    }
}

/// Reads a varint value as an `int64`.
fn to_i64(v: u64) -> (r: i64)
    ensures
        r == i64_of(v),
{
    if v < 0x8000_0000_0000_0000 {
        v as i64
    } else {
        let low = (v - 0x8000_0000_0000_0000) as i64;
        low - 0x7FFF_FFFF_FFFF_FFFF - 1
    }
}

/// The varint value that carries an `int64`.
pub(crate) fn to_u64(t: i64) -> (r: u64)
    ensures
        r == u64_of(t),
{
    if t >= 0 {
        t as u64
    } else {
        let m = (-(t + 1)) as u64;
        0xFFFF_FFFF_FFFF_FFFF - m
    }
}

/// Reads a varint value as an `int32`.
fn to_i32(v: u64) -> (r: i32)
    ensures
        r == i32_of(v),
{
    let w = v % 0x1_0000_0000;
    if w < 0x8000_0000 {
        w as i32
    } else {
        let low = (w - 0x8000_0000) as i32;
        low - 0x7FFF_FFFF - 1
    }
}

/// The text of a string field, where its bytes are UTF-8.
pub open spec fn text_of(bs: Seq<u8>) -> Option<Seq<char>> {
    if valid_utf8(bs) {
        Some(decode_utf8(bs))
    } else {
        None
    }
}

/// Relies on `std::str::from_utf8`: it accepts exactly the valid UTF-8 byte
/// strings and then holds the characters they encode.
#[verifier::external_body]
fn utf8_string(b: &[u8]) -> (r: Option<String>)
    ensures
        match r {
            Some(s) => valid_utf8(b@) && s@ == decode_utf8(b@),
            None => !valid_utf8(b@),
        },
{
    match std::str::from_utf8(b) {
        Ok(s) => Some(s.to_owned()),
        Err(_) => None,
    }
}

/// The message with no field set.
pub open spec fn label_default() -> LabelView {
    LabelView { name: Seq::empty(), value: Seq::empty() }
}

/// Folds one field into a partly decoded message: a known field with the
/// wrong wire type, or whose payload does not decode, is refused; an unknown
/// field is skipped.
pub open spec fn label_step(a: LabelView, f: Field) -> Option<LabelView> {
    if f.number == 1 {
        match f.wire {
            Wire::Bytes(bs) => match text_of(bs) {
                Some(t) => Some(LabelView { name: t, ..a }),
                None => None,
            },
            _ => None,
        }
    } else if f.number == 2 {
        match f.wire {
            Wire::Bytes(bs) => match text_of(bs) {
                Some(t) => Some(LabelView { value: t, ..a }),
                None => None,
            },
            _ => None,
        }
    } else {
        Some(a)
    }
}

/// The field folding above, as a function value.
pub open spec fn label_steps() -> spec_fn(LabelView, Field) -> Option<LabelView> {
    |a: LabelView, f: Field| label_step(a, f)
}

/// What the bytes of a `Label` message decode to.
pub open spec fn decode_label_spec(b: Seq<u8>) -> Option<LabelView> {
    decode_fields(b, label_default(), label_steps())
}

/// The message with no field set.
pub open spec fn sample_default() -> Sample {
    Sample { value_bits: 0, timestamp: 0 }
}

/// Folds one field into a partly decoded message: a known field with the
/// wrong wire type, or whose payload does not decode, is refused; an unknown
/// field is skipped.
pub open spec fn sample_step(a: Sample, f: Field) -> Option<Sample> {
    if f.number == 1 {
        match f.wire {
            Wire::Fixed64(bs) => Some(Sample { value_bits: le_value(bs) as u64, ..a }),
            _ => None,
        }
    } else if f.number == 2 {
        match f.wire {
            Wire::Varint(v) => Some(Sample { timestamp: i64_of(v), ..a }),
            _ => None,
        }
    } else {
        Some(a)
    }
}

/// The field folding above, as a function value.
pub open spec fn sample_steps() -> spec_fn(Sample, Field) -> Option<Sample> {
    |a: Sample, f: Field| sample_step(a, f)
}

/// What the bytes of a `Sample` message decode to.
pub open spec fn decode_sample_spec(b: Seq<u8>) -> Option<Sample> {
    decode_fields(b, sample_default(), sample_steps())
}

/// Decodes a `Label` message.
pub fn decode_label(buf: &[u8]) -> (r: Option<Label>)
    ensures
        match decode_label_spec(buf@) {
            Some(l) => r matches Some(x) && x@ == l,
            None => r is None,
        },
{
    let mut name = String::new();
    let mut value = String::new();
    let mut pos: usize = 0;
    assert(buf@.skip(0) =~= buf@);
    while pos < buf.len()
        invariant
            pos <= buf@.len(),
            decode_label_spec(buf@) == decode_fields(buf@.skip(pos as int), LabelView { name: name@, value: value@ }, label_steps()),
        decreases buf@.len() - pos,
    {
        let ghost acc = LabelView { name: name@, value: value@ };
        proof { lemma_parse_field_len(buf@.skip(pos as int)); }
        let (num, w, end) = match read_field(buf, pos) {
            None => return None,
            Some(x) => x,
        };
        let ghost f = (parse_field(buf@.skip(pos as int))->Some_0).0;
        if num == 1 || num == 2 {
            let text = match w {
                WireValue::Delimited(s, e) => match utf8_string(vstd::slice::slice_subrange(buf, s, e)) {
                    Some(t) => t,
                    None => return None,
                },
                _ => return None,
            };
            if num == 1 {
                name = text;
            } else {
                value = text;
            }
        }
        assert(label_step(acc, f) == Some(LabelView { name: name@, value: value@ }));
        assert(buf@.skip(pos as int).skip((end - pos) as int) =~= buf@.skip(end as int));
        pos = end;
    }
    assert(buf@.skip(pos as int).len() == 0);
    Some(Label { name, value })
}

/// Decodes a `Sample` message.
pub fn decode_sample(buf: &[u8]) -> (r: Option<Sample>)
    ensures
        match decode_sample_spec(buf@) {
            Some(x) => r == Some(x),
            None => r is None,
        },
{
    let mut out = Sample { value_bits: 0, timestamp: 0 };
    let mut pos: usize = 0;
    assert(buf@.skip(0) =~= buf@);
    while pos < buf.len()
        invariant
            pos <= buf@.len(),
            decode_sample_spec(buf@) == decode_fields(buf@.skip(pos as int), out, sample_steps()),
        decreases buf@.len() - pos,
    {
        let ghost acc = out;
        proof { lemma_parse_field_len(buf@.skip(pos as int)); }
        let (num, w, end) = match read_field(buf, pos) {
            None => return None,
            Some(x) => x,
        };
        let ghost f = (parse_field(buf@.skip(pos as int))->Some_0).0;
        if num == 1 {
            match w {
                WireValue::Fixed64(v) => out.value_bits = v,
                _ => return None,
            }
        } else if num == 2 {
            match w {
                WireValue::Varint(v) => out.timestamp = to_i64(v),
                _ => return None,
            }
        }
        assert(sample_step(acc, f) == Some(out));
        assert(buf@.skip(pos as int).skip((end - pos) as int) =~= buf@.skip(end as int));
        pos = end;
    }
    assert(buf@.skip(pos as int).len() == 0);
    Some(out)
}

/// The message with no field set.
pub open spec fn series_default() -> TimeSeriesView {
    TimeSeriesView { labels: Seq::empty(), samples: Seq::empty() }
}

/// Folds one field into a partly decoded message: a known field with the
/// wrong wire type, or whose payload does not decode, is refused; an unknown
/// field is skipped.
pub open spec fn series_step(a: TimeSeriesView, f: Field) -> Option<TimeSeriesView> {
    if f.number == 1 {
        match f.wire {
            Wire::Bytes(bs) => match decode_label_spec(bs) {
                Some(l) => Some(TimeSeriesView { labels: a.labels.push(l), ..a }),
                None => None,
            },
            _ => None,
        }
    } else if f.number == 2 {
        match f.wire {
            Wire::Bytes(bs) => match decode_sample_spec(bs) {
                Some(x) => Some(TimeSeriesView { samples: a.samples.push(x), ..a }),
                None => None,
            },
            _ => None,
        }
    } else {
        Some(a)
    }
}

/// The field folding above, as a function value.
pub open spec fn series_steps() -> spec_fn(TimeSeriesView, Field) -> Option<TimeSeriesView> {
    |a: TimeSeriesView, f: Field| series_step(a, f)
}

/// What the bytes of a `TimeSeries` message decode to.
pub open spec fn decode_series_spec(b: Seq<u8>) -> Option<TimeSeriesView> {
    decode_fields(b, series_default(), series_steps())
}

/// Decodes a `TimeSeries` message.
pub fn decode_time_series(buf: &[u8]) -> (r: Option<TimeSeries>)
    ensures
        match decode_series_spec(buf@) {
            Some(x) => r matches Some(t) && t@ == x,
            None => r is None,
        },
{
    let mut out = TimeSeries { labels: Vec::new(), samples: Vec::new() };
    let mut pos: usize = 0;
    assert(buf@.skip(0) =~= buf@);
    assert(out@.labels =~= Seq::<LabelView>::empty());
    while pos < buf.len()
        invariant
            pos <= buf@.len(),
            decode_series_spec(buf@) == decode_fields(buf@.skip(pos as int), out@, series_steps()),
        decreases buf@.len() - pos,
    {
        let ghost acc = out@;
        proof { lemma_parse_field_len(buf@.skip(pos as int)); }
        let (num, w, end) = match read_field(buf, pos) {
            None => return None,
            Some(x) => x,
        };
        let ghost f = (parse_field(buf@.skip(pos as int))->Some_0).0;
        if num == 1 || num == 2 {
            let (s, e) = match w {
                WireValue::Delimited(s, e) => (s, e),
                _ => return None,
            };
            let part = vstd::slice::slice_subrange(buf, s, e);
            if num == 1 {
                match decode_label(part) {
                    Some(l) => {
                        out.labels.push(l);
                        assert(out@.labels =~= acc.labels.push(l@));
                    },
                    None => return None,
                }
            } else {
                match decode_sample(part) {
                    Some(x) => out.samples.push(x),
                    None => return None,
                }
            }
        }
        assert(series_step(acc, f) == Some(out@));
        assert(buf@.skip(pos as int).skip((end - pos) as int) =~= buf@.skip(end as int));
        pos = end;
    }
    assert(buf@.skip(pos as int).len() == 0);
    Some(out)
}

/// The message with no field set.
pub open spec fn write_request_default() -> WriteRequestView {
    WriteRequestView { timeseries: Seq::empty() }
}

/// Folds one field into a partly decoded message: a known field with the
/// wrong wire type, or whose payload does not decode, is refused; an unknown
/// field is skipped.
pub open spec fn write_request_step(a: WriteRequestView, f: Field) -> Option<WriteRequestView> {
    if f.number == 1 {
        match f.wire {
            Wire::Bytes(bs) => match decode_series_spec(bs) {
                Some(t) => Some(WriteRequestView { timeseries: a.timeseries.push(t) }),
                None => None,
            },
            _ => None,
        }
    } else {
        Some(a)
    }
}

/// The field folding above, as a function value.
pub open spec fn write_request_steps() -> spec_fn(WriteRequestView, Field) -> Option<WriteRequestView> {
    |a: WriteRequestView, f: Field| write_request_step(a, f)
}

/// What the bytes of a `WriteRequest` message decode to.
pub open spec fn decode_write_request_spec(b: Seq<u8>) -> Option<WriteRequestView> {
    decode_fields(b, write_request_default(), write_request_steps())
}

/// Decodes a `WriteRequest` message.
pub fn decode_write_request(buf: &[u8]) -> (r: Option<WriteRequest>)
    ensures
        match decode_write_request_spec(buf@) {
            Some(x) => r matches Some(w) && w@ == x,
            None => r is None,
        },
{
    let mut out = WriteRequest { timeseries: Vec::new() };
    let mut pos: usize = 0;
    assert(buf@.skip(0) =~= buf@);
    assert(out@.timeseries =~= Seq::<TimeSeriesView>::empty());
    while pos < buf.len()
        invariant
            pos <= buf@.len(),
            decode_write_request_spec(buf@) == decode_fields(buf@.skip(pos as int), out@, write_request_steps()),
        decreases buf@.len() - pos,
    {
        let ghost acc = out@;
        proof { lemma_parse_field_len(buf@.skip(pos as int)); }
        let (num, w, end) = match read_field(buf, pos) {
            None => return None,
            Some(x) => x,
        };
        let ghost f = (parse_field(buf@.skip(pos as int))->Some_0).0;
        if num == 1 {
            let (s, e) = match w {
                WireValue::Delimited(s, e) => (s, e),
                _ => return None,
            };
            match decode_time_series(vstd::slice::slice_subrange(buf, s, e)) {
                Some(t) => {
                    out.timeseries.push(t);
                    assert(out@.timeseries =~= acc.timeseries.push(t@));
                },
                None => return None,
            }
        }
        assert(write_request_step(acc, f) == Some(out@));
        assert(buf@.skip(pos as int).skip((end - pos) as int) =~= buf@.skip(end as int));
        pos = end;
    }
    assert(buf@.skip(pos as int).len() == 0);
    Some(out)
}

/// The message with no field set.
pub open spec fn query_result_default() -> QueryResultView {
    QueryResultView { timeseries: Seq::empty() }
}

/// Folds one field into a partly decoded message: a known field with the
/// wrong wire type, or whose payload does not decode, is refused; an unknown
/// field is skipped.
pub open spec fn query_result_step(a: QueryResultView, f: Field) -> Option<QueryResultView> {
    if f.number == 1 {
        match f.wire {
            Wire::Bytes(bs) => match decode_series_spec(bs) {
                Some(t) => Some(QueryResultView { timeseries: a.timeseries.push(t) }),
                None => None,
            },
            _ => None,
        }
    } else {
        Some(a)
    }
}

/// The field folding above, as a function value.
pub open spec fn query_result_steps() -> spec_fn(QueryResultView, Field) -> Option<QueryResultView> {
    |a: QueryResultView, f: Field| query_result_step(a, f)
}

/// What the bytes of a `QueryResult` message decode to.
pub open spec fn decode_query_result_spec(b: Seq<u8>) -> Option<QueryResultView> {
    decode_fields(b, query_result_default(), query_result_steps())
}

/// Decodes a `QueryResult` message.
pub fn decode_query_result(buf: &[u8]) -> (r: Option<QueryResult>)
    ensures
        match decode_query_result_spec(buf@) {
            Some(x) => r matches Some(w) && w@ == x,
            None => r is None,
        },
{
    let mut out = QueryResult { timeseries: Vec::new() };
    let mut pos: usize = 0;
    assert(buf@.skip(0) =~= buf@);
    assert(out@.timeseries =~= Seq::<TimeSeriesView>::empty());
    while pos < buf.len()
        invariant
            pos <= buf@.len(),
            decode_query_result_spec(buf@) == decode_fields(buf@.skip(pos as int), out@, query_result_steps()),
        decreases buf@.len() - pos,
    {
        let ghost acc = out@;
        proof { lemma_parse_field_len(buf@.skip(pos as int)); }
        let (num, w, end) = match read_field(buf, pos) {
            None => return None,
            Some(x) => x,
        };
        let ghost f = (parse_field(buf@.skip(pos as int))->Some_0).0;
        if num == 1 {
            let (s, e) = match w {
                WireValue::Delimited(s, e) => (s, e),
                _ => return None,
            };
            match decode_time_series(vstd::slice::slice_subrange(buf, s, e)) {
                Some(t) => {
                    out.timeseries.push(t);
                    assert(out@.timeseries =~= acc.timeseries.push(t@));
                },
                None => return None,
            }
        }
        assert(query_result_step(acc, f) == Some(out@));
        assert(buf@.skip(pos as int).skip((end - pos) as int) =~= buf@.skip(end as int));
        pos = end;
    }
    assert(buf@.skip(pos as int).len() == 0);
    Some(out)
}

/// The message with no field set.
pub open spec fn read_response_default() -> ReadResponseView {
    ReadResponseView { results: Seq::empty() }
}

/// Folds one field into a partly decoded message: a known field with the
/// wrong wire type, or whose payload does not decode, is refused; an unknown
/// field is skipped.
pub open spec fn read_response_step(a: ReadResponseView, f: Field) -> Option<ReadResponseView> {
    if f.number == 1 {
        match f.wire {
            Wire::Bytes(bs) => match decode_query_result_spec(bs) {
                Some(t) => Some(ReadResponseView { results: a.results.push(t) }),
                None => None,
            },
            _ => None,
        }
    } else {
        Some(a)
    }
}

/// The field folding above, as a function value.
pub open spec fn read_response_steps() -> spec_fn(ReadResponseView, Field) -> Option<ReadResponseView> {
    |a: ReadResponseView, f: Field| read_response_step(a, f)
}

/// What the bytes of a `ReadResponse` message decode to.
pub open spec fn decode_read_response_spec(b: Seq<u8>) -> Option<ReadResponseView> {
    decode_fields(b, read_response_default(), read_response_steps())
}

/// Decodes a `ReadResponse` message.
pub fn decode_read_response(buf: &[u8]) -> (r: Option<ReadResponse>)
    ensures
        match decode_read_response_spec(buf@) {
            Some(x) => r matches Some(w) && w@ == x,
            None => r is None,
        },
{
    let mut out = ReadResponse { results: Vec::new() };
    let mut pos: usize = 0;
    assert(buf@.skip(0) =~= buf@);
    assert(out@.results =~= Seq::<QueryResultView>::empty());
    while pos < buf.len()
        invariant
            pos <= buf@.len(),
            decode_read_response_spec(buf@) == decode_fields(buf@.skip(pos as int), out@, read_response_steps()),
        decreases buf@.len() - pos,
    {
        let ghost acc = out@;
        proof { lemma_parse_field_len(buf@.skip(pos as int)); }
        let (num, w, end) = match read_field(buf, pos) {
            None => return None,
            Some(x) => x,
        };
        let ghost f = (parse_field(buf@.skip(pos as int))->Some_0).0;
        if num == 1 {
            let (s, e) = match w {
                WireValue::Delimited(s, e) => (s, e),
                _ => return None,
            };
            match decode_query_result(vstd::slice::slice_subrange(buf, s, e)) {
                Some(t) => {
                    out.results.push(t);
                    assert(out@.results =~= acc.results.push(t@));
                },
                None => return None,
            }
        }
        assert(read_response_step(acc, f) == Some(out@));
        assert(buf@.skip(pos as int).skip((end - pos) as int) =~= buf@.skip(end as int));
        pos = end;
    }
    assert(buf@.skip(pos as int).len() == 0);
    Some(out)
}

/// The message with no field set.
pub open spec fn matcher_default() -> LabelMatcherView {
    LabelMatcherView { kind: 0, name: Seq::empty(), value: Seq::empty() }
}

/// Folds one field into a partly decoded message: a known field with the
/// wrong wire type, or whose payload does not decode, is refused; an unknown
/// field is skipped.
pub open spec fn matcher_step(a: LabelMatcherView, f: Field) -> Option<LabelMatcherView> {
    if f.number == 1 {
        match f.wire {
            Wire::Varint(v) => Some(LabelMatcherView { kind: i32_of(v), ..a }),
            _ => None,
        }
    } else if f.number == 2 {
        match f.wire {
            Wire::Bytes(bs) => match text_of(bs) {
                Some(t) => Some(LabelMatcherView { name: t, ..a }),
                None => None,
            },
            _ => None,
        }
    } else if f.number == 3 {
        match f.wire {
            Wire::Bytes(bs) => match text_of(bs) {
                Some(t) => Some(LabelMatcherView { value: t, ..a }),
                None => None,
            },
            _ => None,
        }
    } else {
        Some(a)
    }
}

/// The field folding above, as a function value.
pub open spec fn matcher_steps() -> spec_fn(LabelMatcherView, Field) -> Option<LabelMatcherView> {
    |a: LabelMatcherView, f: Field| matcher_step(a, f)
}

/// What the bytes of a `LabelMatcher` message decode to.
pub open spec fn decode_matcher_spec(b: Seq<u8>) -> Option<LabelMatcherView> {
    decode_fields(b, matcher_default(), matcher_steps())
}

/// Decodes a `LabelMatcher` message.
pub fn decode_matcher(buf: &[u8]) -> (r: Option<LabelMatcher>)
    ensures
        match decode_matcher_spec(buf@) {
            Some(x) => r matches Some(m) && m@ == x,
            None => r is None,
        },
{
    let mut out = LabelMatcher { kind: 0, name: String::new(), value: String::new() };
    let mut pos: usize = 0;
    assert(buf@.skip(0) =~= buf@);
    while pos < buf.len()
        invariant
            pos <= buf@.len(),
            decode_matcher_spec(buf@) == decode_fields(buf@.skip(pos as int), out@, matcher_steps()),
        decreases buf@.len() - pos,
    {
        let ghost acc = out@;
        proof { lemma_parse_field_len(buf@.skip(pos as int)); }
        let (num, w, end) = match read_field(buf, pos) {
            None => return None,
            Some(x) => x,
        };
        let ghost f = (parse_field(buf@.skip(pos as int))->Some_0).0;
        if num == 1 {
            match w {
                WireValue::Varint(v) => out.kind = to_i32(v),
                _ => return None,
            }
        } else if num == 2 || num == 3 {
            let text = match w {
                WireValue::Delimited(s, e) => match utf8_string(vstd::slice::slice_subrange(buf, s, e)) {
                    Some(t) => t,
                    None => return None,
                },
                _ => return None,
            };
            if num == 2 {
                out.name = text;
            } else {
                out.value = text;
            }
        }
        assert(matcher_step(acc, f) == Some(out@));
        assert(buf@.skip(pos as int).skip((end - pos) as int) =~= buf@.skip(end as int));
        pos = end;
    }
    assert(buf@.skip(pos as int).len() == 0);
    Some(out)
}

/// The message with no field set.
pub open spec fn hints_default() -> ReadHintsView {
    ReadHintsView {
        step_ms: 0,
        func: Seq::empty(),
        start_ms: 0,
        end_ms: 0,
        grouping: Seq::empty(),
        by: false,
        range_ms: 0,
    }
}

/// Field 2 is the function name and field 5 one grouping label; field 6 is
/// the `by` flag; fields 1, 3, 4 and 7 are the step, start, end and range in
/// milliseconds.
pub open spec fn hints_step(a: ReadHintsView, f: Field) -> Option<ReadHintsView> {
    if f.number == 2 || f.number == 5 {
        match f.wire {
            Wire::Bytes(bs) => match text_of(bs) {
                Some(t) => Some(
                    if f.number == 2 {
                        ReadHintsView { func: t, ..a }
                    } else {
                        ReadHintsView { grouping: a.grouping.push(t), ..a }
                    },
                ),
                None => None,
            },
            _ => None,
        }
    } else if f.number == 6 {
        match f.wire {
            Wire::Varint(v) => Some(ReadHintsView { by: v != 0, ..a }),
            _ => None,
        }
    } else if f.number == 1 || f.number == 3 || f.number == 4 || f.number == 7 {
        match f.wire {
            Wire::Varint(v) => Some(
                if f.number == 1 {
                    ReadHintsView { step_ms: i64_of(v), ..a }
                } else if f.number == 3 {
                    ReadHintsView { start_ms: i64_of(v), ..a }
                } else if f.number == 4 {
                    ReadHintsView { end_ms: i64_of(v), ..a }
                } else {
                    ReadHintsView { range_ms: i64_of(v), ..a }
                },
            ),
            _ => None,
        }
    } else {
        Some(a)
    }
}

/// The field folding above, as a function value.
pub open spec fn hints_steps() -> spec_fn(ReadHintsView, Field) -> Option<ReadHintsView> {
    |a: ReadHintsView, f: Field| hints_step(a, f)
}

/// Decodes the bytes of a `ReadHints` message into `start`, as a repeated
/// occurrence of the field merges into what came before.
pub fn decode_hints_into(buf: &[u8], start: ReadHints) -> (r: Option<ReadHints>)
    ensures
        match decode_fields(buf@, start@, hints_steps()) {
            Some(x) => r matches Some(h) && h@ == x,
            None => r is None,
        },
{
    let mut out = start;
    let mut pos: usize = 0;
    assert(buf@.skip(0) =~= buf@);
    while pos < buf.len()
        invariant
            pos <= buf@.len(),
            decode_fields(buf@, start@, hints_steps()) == decode_fields(buf@.skip(pos as int), out@, hints_steps()),
        decreases buf@.len() - pos,
    {
        let ghost acc = out@;
        proof { lemma_parse_field_len(buf@.skip(pos as int)); }
        let (num, w, end) = match read_field(buf, pos) {
            None => return None,
            Some(x) => x,
        };
        let ghost f = (parse_field(buf@.skip(pos as int))->Some_0).0;
        if num == 2 || num == 5 {
            let text = match w {
                WireValue::Delimited(s, e) => match utf8_string(vstd::slice::slice_subrange(buf, s, e)) {
                    Some(t) => t,
                    None => return None,
                },
                _ => return None,
            };
            if num == 2 {
                out.func = text;
            } else {
                let ghost before = out@.grouping;
                out.grouping.push(text);
                assert(out@.grouping =~= before.push(text@));
            }
        } else if num == 6 {
            match w {
                WireValue::Varint(v) => out.by = v != 0,
                _ => return None,
            }
        } else if num == 1 || num == 3 || num == 4 || num == 7 {
            let v = match w {
                WireValue::Varint(v) => to_i64(v),
                _ => return None,
            };
            if num == 1 {
                out.step_ms = v;
            } else if num == 3 {
                out.start_ms = v;
            } else if num == 4 {
                out.end_ms = v;
            } else {
                out.range_ms = v;
            }
        }
        assert(hints_step(acc, f) == Some(out@));
        assert(buf@.skip(pos as int).skip((end - pos) as int) =~= buf@.skip(end as int));
        pos = end;
    }
    assert(buf@.skip(pos as int).len() == 0);
    Some(out)
}

/// The message with no field set.
pub open spec fn query_default() -> QueryView {
    QueryView { start_timestamp_ms: 0, end_timestamp_ms: 0, matchers: Seq::empty(), hints: None }
}

/// Folds one field into a partly decoded message: a known field with the
/// wrong wire type, or whose payload does not decode, is refused; an unknown
/// field is skipped.
pub open spec fn query_step(a: QueryView, f: Field) -> Option<QueryView> {
    if f.number == 1 || f.number == 2 {
        match f.wire {
            Wire::Varint(v) => Some(
                if f.number == 1 {
                    QueryView { start_timestamp_ms: i64_of(v), ..a }
                } else {
                    QueryView { end_timestamp_ms: i64_of(v), ..a }
                },
            ),
            _ => None,
        }
    } else if f.number == 3 {
        match f.wire {
            Wire::Bytes(bs) => match decode_matcher_spec(bs) {
                Some(m) => Some(QueryView { matchers: a.matchers.push(m), ..a }),
                None => None,
            },
            _ => None,
        }
    } else if f.number == 4 {
        match f.wire {
            Wire::Bytes(bs) => {
                let base = match a.hints {
                    Some(h) => h,
                    None => hints_default(),
                };
                match decode_fields(bs, base, hints_steps()) {
                    Some(h) => Some(QueryView { hints: Some(h), ..a }),
                    None => None,
                }
            },
            _ => None,
        }
    } else {
        Some(a)
    }
}

/// The field folding above, as a function value.
pub open spec fn query_steps() -> spec_fn(QueryView, Field) -> Option<QueryView> {
    |a: QueryView, f: Field| query_step(a, f)
}

/// What the bytes of a `Query` message decode to.
pub open spec fn decode_query_spec(b: Seq<u8>) -> Option<QueryView> {
    decode_fields(b, query_default(), query_steps())
}

/// Decodes a `Query` message.
pub fn decode_query(buf: &[u8]) -> (r: Option<Query>)
    ensures
        match decode_query_spec(buf@) {
            Some(x) => r matches Some(q) && q@ == x,
            None => r is None,
        },
{
    let mut out = Query { start_timestamp_ms: 0, end_timestamp_ms: 0, matchers: Vec::new(), hints: None };
    let mut pos: usize = 0;
    assert(buf@.skip(0) =~= buf@);
    assert(out@.matchers =~= Seq::<LabelMatcherView>::empty());
    while pos < buf.len()
        invariant
            pos <= buf@.len(),
            decode_query_spec(buf@) == decode_fields(buf@.skip(pos as int), out@, query_steps()),
        decreases buf@.len() - pos,
    {
        let ghost acc = out@;
        proof { lemma_parse_field_len(buf@.skip(pos as int)); }
        let (num, w, end) = match read_field(buf, pos) {
            None => return None,
            Some(x) => x,
        };
        let ghost f = (parse_field(buf@.skip(pos as int))->Some_0).0;
        if num == 1 || num == 2 {
            let v = match w {
                WireValue::Varint(v) => to_i64(v),
                _ => return None,
            };
            if num == 1 {
                out.start_timestamp_ms = v;
            } else {
                out.end_timestamp_ms = v;
            }
        } else if num == 3 || num == 4 {
            let (s, e) = match w {
                WireValue::Delimited(s, e) => (s, e),
                _ => return None,
            };
            let part = vstd::slice::slice_subrange(buf, s, e);
            if num == 3 {
                match decode_matcher(part) {
                    Some(m) => {
                        out.matchers.push(m);
                        assert(out@.matchers =~= acc.matchers.push(m@));
                    },
                    None => return None,
                }
            } else {
                let base = match out.hints {
                    Some(h) => h,
                    None => {
                        let h = ReadHints {
                            step_ms: 0,
                            func: String::new(),
                            start_ms: 0,
                            end_ms: 0,
                            grouping: Vec::new(),
                            by: false,
                            range_ms: 0,
                        };
                        assert(h@.grouping =~= Seq::<Seq<char>>::empty());
                        h
                    },
                };
                match decode_hints_into(part, base) {
                    Some(h) => out.hints = Some(h),
                    None => return None,
                }
            }
        }
        assert(query_step(acc, f) == Some(out@));
        assert(buf@.skip(pos as int).skip((end - pos) as int) =~= buf@.skip(end as int));
        pos = end;
    }
    assert(buf@.skip(pos as int).len() == 0);
    Some(out)
}

/// The message with no field set.
pub open spec fn read_request_default() -> ReadRequestView {
    ReadRequestView { queries: Seq::empty() }
}

/// Folds one field into a partly decoded message: a known field with the
/// wrong wire type, or whose payload does not decode, is refused; an unknown
/// field is skipped.
pub open spec fn read_request_step(a: ReadRequestView, f: Field) -> Option<ReadRequestView> {
    if f.number == 1 {
        match f.wire {
            Wire::Bytes(bs) => match decode_query_spec(bs) {
                Some(q) => Some(ReadRequestView { queries: a.queries.push(q) }),
                None => None,
            },
            _ => None,
        }
    } else {
        Some(a)
    }
}

/// The field folding above, as a function value.
pub open spec fn read_request_steps() -> spec_fn(ReadRequestView, Field) -> Option<ReadRequestView> {
    |a: ReadRequestView, f: Field| read_request_step(a, f)
}

/// What the bytes of a `ReadRequest` message decode to.
pub open spec fn decode_read_request_spec(b: Seq<u8>) -> Option<ReadRequestView> {
    decode_fields(b, read_request_default(), read_request_steps())
}

/// Decodes a `ReadRequest` message.
pub fn decode_read_request(buf: &[u8]) -> (r: Option<ReadRequest>)
    ensures
        match decode_read_request_spec(buf@) {
            Some(x) => r matches Some(q) && q@ == x,
            None => r is None,
        },
{
    let mut out = ReadRequest { queries: Vec::new() };
    let mut pos: usize = 0;
    assert(buf@.skip(0) =~= buf@);
    assert(out@.queries =~= Seq::<QueryView>::empty());
    while pos < buf.len()
        invariant
            pos <= buf@.len(),
            decode_read_request_spec(buf@) == decode_fields(buf@.skip(pos as int), out@, read_request_steps()),
        decreases buf@.len() - pos,
    {
        let ghost acc = out@;
        proof { lemma_parse_field_len(buf@.skip(pos as int)); }
        let (num, w, end) = match read_field(buf, pos) {
            None => return None,
            Some(x) => x,
        };
        let ghost f = (parse_field(buf@.skip(pos as int))->Some_0).0;
        if num == 1 {
            let (s, e) = match w {
                WireValue::Delimited(s, e) => (s, e),
                _ => return None,
            };
            match decode_query(vstd::slice::slice_subrange(buf, s, e)) {
                Some(q) => {
                    out.queries.push(q);
                    assert(out@.queries =~= acc.queries.push(q@));
                },
                None => return None,
            }
        }
        assert(read_request_step(acc, f) == Some(out@));
        assert(buf@.skip(pos as int).skip((end - pos) as int) =~= buf@.skip(end as int));
        pos = end;
    }
    assert(buf@.skip(pos as int).len() == 0);
    Some(out)
}

/// A string field, present only where the text is not empty.
pub open spec fn text_field(number: u64, t: Seq<char>) -> Seq<Field> {
    if t.len() == 0 {
        Seq::empty()
    } else {
        seq![Field { number, wire: Wire::Bytes(encode_utf8(t)) }]
    }
}

/// The fields that encode a label.
pub open spec fn label_fields(l: LabelView) -> Seq<Field> {
    text_field(1, l.name) + text_field(2, l.value)
}

/// The fields that encode a sample; a zero value or timestamp is left out.
pub open spec fn sample_fields(s: Sample) -> Seq<Field> {
    (if s.value_bits == 0 {
        Seq::empty()
    } else {
        seq![Field { number: 1, wire: Wire::Fixed64(le_bytes(s.value_bits as nat, 8)) }]
    }) + (if s.timestamp == 0 {
        Seq::empty()
    } else {
        seq![Field { number: 2, wire: Wire::Varint(u64_of(s.timestamp)) }]
    })
}

/// The bytes of the message.
pub open spec fn encode_label_spec(l: LabelView) -> Seq<u8> {
    encode_fields(label_fields(l))
}

/// The bytes of the message.
pub open spec fn encode_sample_spec(s: Sample) -> Seq<u8> {
    encode_fields(sample_fields(s))
}

/// One field per label, each holding the label's encoding.
pub open spec fn label_entries(ls: Seq<LabelView>) -> Seq<Field> {
    ls.map_values(|l: LabelView| Field { number: 1, wire: Wire::Bytes(encode_label_spec(l)) })
}

/// One field per sample, each holding the sample's encoding.
pub open spec fn sample_entries(ss: Seq<Sample>) -> Seq<Field> {
    ss.map_values(|x: Sample| Field { number: 2, wire: Wire::Bytes(encode_sample_spec(x)) })
}

/// The fields that encode a series: its labels, then its samples.
pub open spec fn series_fields(t: TimeSeriesView) -> Seq<Field> {
    label_entries(t.labels) + sample_entries(t.samples)
}

/// The bytes of the message.
pub open spec fn encode_series_spec(t: TimeSeriesView) -> Seq<u8> {
    encode_fields(series_fields(t))
}

/// One field numbered 1 per series, each holding the series' encoding: the
/// body of a `WriteRequest` and of a `QueryResult`.
pub open spec fn series_entries(ts: Seq<TimeSeriesView>) -> Seq<Field> {
    ts.map_values(|t: TimeSeriesView| Field { number: 1, wire: Wire::Bytes(encode_series_spec(t)) })
}

/// The bytes of the message.
pub open spec fn encode_write_request_spec(w: WriteRequestView) -> Seq<u8> {
    encode_fields(series_entries(w.timeseries))
}

/// The bytes of the message.
pub open spec fn encode_query_result_spec(q: QueryResultView) -> Seq<u8> {
    encode_fields(series_entries(q.timeseries))
}

/// One field numbered 1 per query result, each holding its encoding.
pub open spec fn result_entries(rs: Seq<QueryResultView>) -> Seq<Field> {
    rs.map_values(|q: QueryResultView| Field { number: 1, wire: Wire::Bytes(encode_query_result_spec(q)) })
}

/// The bytes of the message.
pub open spec fn encode_read_response_spec(r: ReadResponseView) -> Seq<u8> {
    encode_fields(result_entries(r.results))
}

/// Appends a string field, present only where the text is not empty.
fn write_text_field(out: &mut Vec<u8>, number: u64, t: &String)
    requires
        1 <= number < 0x2000_0000,
    ensures
        final(out)@ == old(out)@ + encode_fields(text_field(number, t@)),
{
    let s = t.as_str();
    if s.is_empty() {
        assert(old(out)@ + encode_fields(Seq::<Field>::empty()) =~= old(out)@);
    } else {
        write_bytes_field(out, number, s.as_bytes());
        proof {
            lemma_encode_fields_push(Seq::empty(), Field { number, wire: Wire::Bytes(encode_utf8(t@)) });
            assert(Seq::<Field>::empty().push(Field { number, wire: Wire::Bytes(encode_utf8(t@)) }) =~= text_field(number, t@));
            assert(encode_fields(Seq::<Field>::empty()) =~= Seq::<u8>::empty());
        }
    }
}

/// Appends the encoding of a label.
pub fn encode_label(l: &Label, out: &mut Vec<u8>)
    ensures
        final(out)@ == old(out)@ + encode_label_spec(l@),
{
    write_text_field(out, 1, &l.name);
    write_text_field(out, 2, &l.value);
    proof {
        crate::wire::lemma_encode_fields_append(text_field(1, l.name@), text_field(2, l.value@));
    }
    assert(final(out)@ =~= old(out)@ + encode_label_spec(l@));
}

/// Appends the encoding of a sample.
pub fn encode_sample(x: &Sample, out: &mut Vec<u8>)
    ensures
        final(out)@ == old(out)@ + encode_sample_spec(*x),
{
    let ghost a: Seq<Field> = if x.value_bits == 0 {
        Seq::empty()
    } else {
        seq![Field { number: 1, wire: Wire::Fixed64(le_bytes(x.value_bits as nat, 8)) }]
    };
    let ghost b: Seq<Field> = if x.timestamp == 0 {
        Seq::empty()
    } else {
        seq![Field { number: 2, wire: Wire::Varint(u64_of(x.timestamp)) }]
    };
    proof {
        reveal_with_fuel(encode_fields, 2);
        crate::wire::lemma_encode_fields_append(a, b);
    }
    if x.value_bits != 0 {
        write_key(out, 1, 1);
        write_fixed64(out, x.value_bits);
    }
    let ghost mid = out@;
    assert(mid =~= old(out)@ + encode_fields(a));
    if x.timestamp != 0 {
        write_key(out, 2, 0);
        write_varint(out, to_u64(x.timestamp));
    }
    assert(out@ =~= mid + encode_fields(b));
    assert(sample_fields(*x) == a + b);
}

/// Appends the encoding of a series.
pub fn encode_time_series(t: &TimeSeries, out: &mut Vec<u8>)
    ensures
        final(out)@ == old(out)@ + encode_series_spec(t@),
{
    let mut i: usize = 0;
    assert(t@.labels.take(0) =~= Seq::<LabelView>::empty());
    assert(encode_fields(label_entries(Seq::<LabelView>::empty())) =~= Seq::<u8>::empty());
    while i < t.labels.len()
        invariant
            i <= t.labels@.len(),
            out@ == old(out)@ + encode_fields(label_entries(t@.labels.take(i as int))),
        decreases t.labels@.len() - i,
    {
        let mut body: Vec<u8> = Vec::new();
        encode_label(&t.labels[i], &mut body);
        write_bytes_field(out, 1, body.as_slice());
        proof {
            let f = Field { number: 1, wire: Wire::Bytes(encode_label_spec(t@.labels[i as int])) };
            assert(body@ =~= encode_label_spec(t@.labels[i as int]));
            lemma_encode_fields_push(label_entries(t@.labels.take(i as int)), f);
            assert(label_entries(t@.labels.take(i + 1)) =~= label_entries(t@.labels.take(i as int)).push(f));
        }
        i = i + 1;
    }
    assert(t@.labels.take(i as int) =~= t@.labels);
    let ghost mid = out@;
    let mut j: usize = 0;
    assert(t@.samples.take(0) =~= Seq::<Sample>::empty());
    assert(encode_fields(sample_entries(Seq::<Sample>::empty())) =~= Seq::<u8>::empty());
    while j < t.samples.len()
        invariant
            j <= t.samples@.len(),
            out@ == mid + encode_fields(sample_entries(t@.samples.take(j as int))),
        decreases t.samples@.len() - j,
    {
        let mut body: Vec<u8> = Vec::new();
        encode_sample(&t.samples[j], &mut body);
        write_bytes_field(out, 2, body.as_slice());
        proof {
            let f = Field { number: 2, wire: Wire::Bytes(encode_sample_spec(t@.samples[j as int])) };
            assert(body@ =~= encode_sample_spec(t@.samples[j as int]));
            lemma_encode_fields_push(sample_entries(t@.samples.take(j as int)), f);
            assert(sample_entries(t@.samples.take(j + 1)) =~= sample_entries(t@.samples.take(j as int)).push(f));
        }
        j = j + 1;
    }
    assert(t@.samples.take(j as int) =~= t@.samples);
    proof {
        crate::wire::lemma_encode_fields_append(label_entries(t@.labels), sample_entries(t@.samples));
    }
    assert(out@ =~= old(out)@ + encode_series_spec(t@));
}

/// Appends one field numbered 1 per series.
fn encode_series_entries(ts: &Vec<TimeSeries>, out: &mut Vec<u8>)
    ensures
        final(out)@ == old(out)@ + encode_fields(series_entries(ts@.map_values(|t: TimeSeries| t@))),
{
    let ghost views = ts@.map_values(|t: TimeSeries| t@);
    let mut i: usize = 0;
    assert(views.take(0) =~= Seq::<TimeSeriesView>::empty());
    assert(encode_fields(series_entries(Seq::<TimeSeriesView>::empty())) =~= Seq::<u8>::empty());
    while i < ts.len()
        invariant
            i <= ts@.len(),
            views == ts@.map_values(|t: TimeSeries| t@),
            out@ == old(out)@ + encode_fields(series_entries(views.take(i as int))),
        decreases ts@.len() - i,
    {
        let mut body: Vec<u8> = Vec::new();
        encode_time_series(&ts[i], &mut body);
        write_bytes_field(out, 1, body.as_slice());
        proof {
            let f = Field { number: 1, wire: Wire::Bytes(encode_series_spec(views[i as int])) };
            assert(body@ =~= encode_series_spec(views[i as int]));
            lemma_encode_fields_push(series_entries(views.take(i as int)), f);
            assert(series_entries(views.take(i + 1)) =~= series_entries(views.take(i as int)).push(f));
        }
        i = i + 1;
    }
    assert(views.take(i as int) =~= views);
}

/// Encodes a `WriteRequest` message.
pub fn encode_write_request(w: &WriteRequest) -> (r: Vec<u8>)
    ensures
        r@ == encode_write_request_spec(w@),
{
    let mut out: Vec<u8> = Vec::new();
    encode_series_entries(&w.timeseries, &mut out);
    assert(out@ =~= encode_write_request_spec(w@));
    out
}

/// Encodes a `QueryResult` message.
pub fn encode_query_result(q: &QueryResult) -> (r: Vec<u8>)
    ensures
        r@ == encode_query_result_spec(q@),
{
    let mut out: Vec<u8> = Vec::new();
    encode_series_entries(&q.timeseries, &mut out);
    assert(out@ =~= encode_query_result_spec(q@));
    out
}

/// Encodes a `ReadResponse` message.
pub fn encode_read_response(resp: &ReadResponse) -> (r: Vec<u8>)
    ensures
        r@ == encode_read_response_spec(resp@),
{
    let ghost views = resp@.results;
    let mut out: Vec<u8> = Vec::new();
    let mut i: usize = 0;
    assert(views.take(0) =~= Seq::<QueryResultView>::empty());
    assert(encode_fields(result_entries(Seq::<QueryResultView>::empty())) =~= Seq::<u8>::empty());
    while i < resp.results.len()
        invariant
            i <= resp.results@.len(),
            views == resp@.results,
            out@ == encode_fields(result_entries(views.take(i as int))),
        decreases resp.results@.len() - i,
    {
        let body = encode_query_result(&resp.results[i]);
        write_bytes_field(&mut out, 1, body.as_slice());
        proof {
            let f = Field { number: 1, wire: Wire::Bytes(encode_query_result_spec(views[i as int])) };
            assert(body@ =~= encode_query_result_spec(views[i as int]));
            lemma_encode_fields_push(result_entries(views.take(i as int)), f);
            assert(result_entries(views.take(i + 1)) =~= result_entries(views.take(i as int)).push(f));
        }
        i = i + 1;
    }
    assert(views.take(i as int) =~= views);
    out
}

/// What the raw snappy decoder yields for `b`: the decompressed bytes, or
/// `None` where `b` is not a valid snappy block.
pub uninterp spec fn snappy_decompressed(b: Seq<u8>) -> Option<Seq<u8>>;

/// What the raw snappy encoder yields for `b`.
pub uninterp spec fn snappy_compressed(b: Seq<u8>) -> Seq<u8>;

/// The largest input that the raw snappy encoder accepts: its worst-case
/// output, `32 + n + n / 6` bytes, must stay within `u32::MAX`.
pub open spec fn snappy_accepts(n: nat) -> bool {
    32 + n + n / 6 <= 0xFFFF_FFFF
}

/// Relies on `snap::raw::Decoder::decompress_vec`: the outcome depends on the
/// input alone, and an empty input is refused.
#[verifier::external_body]
fn snappy_decompress(input: &[u8]) -> (r: Option<Vec<u8>>)
    ensures
        match r {
            Some(v) => snappy_decompressed(input@) == Some(v@),
            None => snappy_decompressed(input@) is None,
        },
        input@.len() == 0 ==> r is None,
{
    match snap::raw::Decoder::new().decompress_vec(input) {
        Ok(v) => Some(v),
        Err(_) => None,
    }
}

/// Relies on `snap::raw::Encoder::compress_vec`: it fails exactly where the
/// worst-case output would exceed `u32::MAX` bytes, its output depends on the
/// input alone, and the raw decoder gives the input back from it.
#[verifier::external_body]
fn snappy_compress(input: &[u8]) -> (r: Option<Vec<u8>>)
    ensures
        match r {
            Some(v) => v@ == snappy_compressed(input@) && snappy_decompressed(v@) == Some(input@),
            None => !snappy_accepts(input@.len()),
        },
        r is Some <==> snappy_accepts(input@.len()),
{
    match snap::raw::Encoder::new().compress_vec(input) {
        Ok(v) => Some(v),
        Err(_) => None,
    }
}

/// Decodes the body of a remote write call: a snappy block around a
/// `WriteRequest` message.
pub fn decode_write_body(body: &[u8]) -> (r: Result<WriteRequest, Error>)
    ensures
        match snappy_decompressed(body@) {
            None => r matches Err(Error::SnappyDecode),
            Some(raw) => match decode_write_request_spec(raw) {
                Some(w) => r matches Ok(x) && x@ == w,
                None => r matches Err(Error::ProtoDecode),
            },
        },
        body@.len() == 0 ==> r matches Err(Error::SnappyDecode),
{
    let raw = match snappy_decompress(body) {
        Some(v) => v,
        None => return Err(Error::SnappyDecode),
    };
    match decode_write_request(raw.as_slice()) {
        Some(w) => Ok(w),
        None => Err(Error::ProtoDecode),
    }
}

/// Decodes the body of a remote read call: a snappy block around a
/// `ReadRequest` message.
pub fn decode_read_body(body: &[u8]) -> (r: Result<ReadRequest, Error>)
    ensures
        match snappy_decompressed(body@) {
            None => r matches Err(Error::SnappyDecode),
            Some(raw) => match decode_read_request_spec(raw) {
                Some(q) => r matches Ok(x) && x@ == q,
                None => r matches Err(Error::ProtoDecode),
            },
        },
        body@.len() == 0 ==> r matches Err(Error::SnappyDecode),
{
    let raw = match snappy_decompress(body) {
        Some(v) => v,
        None => return Err(Error::SnappyDecode),
    };
    match decode_read_request(raw.as_slice()) {
        Some(q) => Ok(q),
        None => Err(Error::ProtoDecode),
    }
}

/// Decodes the body of a reply to a remote read call: a snappy block around
/// a `ReadResponse` message.
pub fn decode_read_response_body(body: &[u8]) -> (r: Result<ReadResponse, Error>)
    ensures
        match snappy_decompressed(body@) {
            None => r matches Err(Error::SnappyDecode),
            Some(raw) => match decode_read_response_spec(raw) {
                Some(q) => r matches Ok(x) && x@ == q,
                None => r matches Err(Error::ProtoDecode),
            },
        },
        body@.len() == 0 ==> r matches Err(Error::SnappyDecode),
{
    let raw = match snappy_decompress(body) {
        Some(v) => v,
        None => return Err(Error::SnappyDecode),
    };
    match decode_read_response(raw.as_slice()) {
        Some(q) => Ok(q),
        None => Err(Error::ProtoDecode),
    }
}

/// Encodes the body of a reply to a remote read call: the `ReadResponse`
/// message in one snappy block.
pub fn encode_read_body(resp: &ReadResponse) -> (r: Result<Vec<u8>, Error>)
    ensures
        match r {
            Ok(v) => v@ == snappy_compressed(encode_read_response_spec(resp@))
                && snappy_decompressed(v@) == Some(encode_read_response_spec(resp@)),
            Err(e) => e is SnappyEncode,
        },
        r is Ok <==> snappy_accepts(encode_read_response_spec(resp@).len()),
{
    let raw = encode_read_response(resp);
    match snappy_compress(raw.as_slice()) {
        Some(v) => Ok(v),
        None => Err(Error::SnappyEncode),
    }
}

/// Encodes the body of a remote write call: the `WriteRequest` message in one
/// snappy block; on success the block decompresses to the message's bytes.
pub fn encode_write_body(w: &WriteRequest) -> (r: Result<Vec<u8>, Error>)
    ensures
        match r {
            Ok(v) => v@ == snappy_compressed(encode_write_request_spec(w@))
                && snappy_decompressed(v@) == Some(encode_write_request_spec(w@)),
            Err(e) => e is SnappyEncode,
        },
        r is Ok <==> snappy_accepts(encode_write_request_spec(w@).len()),
{
    let raw = encode_write_request(w);
    match snappy_compress(raw.as_slice()) {
        Some(v) => Ok(v),
        None => Err(Error::SnappyEncode),
    }
}

/// Folding over a present string field is one step.
proof fn lemma_text_field_fold<A>(number: u64, t: Seq<char>, acc: A, step: spec_fn(A, Field) -> Option<A>)
    requires
        t.len() > 0,
    ensures
        fold_steps(text_field(number, t), acc, step) == step(acc, Field { number, wire: Wire::Bytes(encode_utf8(t)) }),
{
    reveal_with_fuel(fold_steps, 2);
    let f = Field { number, wire: Wire::Bytes(encode_utf8(t)) };
    assert(text_field(number, t).drop_first() =~= Seq::<Field>::empty());
    match step(acc, f) {
        Some(a) => {},
        None => {},
    }
}

/// UTF-8 text decodes back to itself.
proof fn lemma_text_round_trip(t: Seq<char>)
    ensures
        text_of(encode_utf8(t)) == Some(t),
{
    vstd::utf8::encode_utf8_valid_utf8(t);
    vstd::utf8::encode_utf8_decode_utf8(t);
}

/// A label whose encoding fits in 64-bit lengths decodes back to itself.
pub proof fn lemma_label_round_trip(l: LabelView)
    requires
        encode_label_spec(l).len() < 0x1_0000_0000_0000_0000,
    ensures
        decode_label_spec(encode_label_spec(l)) == Some(l),
{
    let fs = label_fields(l);
    assert forall|i: int| 0 <= i < fs.len() implies wf_field(#[trigger] fs[i]) by {
        lemma_payload_within(fs, i);
    }
    lemma_decode_encoded(fs, label_default(), label_steps());
    lemma_fold_steps_append(text_field(1, l.name), text_field(2, l.value), label_default(), label_steps());
    let mid = LabelView { name: l.name, value: Seq::empty() };
    if l.name.len() > 0 {
        lemma_text_field_fold(1, l.name, label_default(), label_steps());
        lemma_text_round_trip(l.name);
    } else {
        assert(l.name =~= Seq::<char>::empty());
    }
    assert(fold_steps(text_field(1, l.name), label_default(), label_steps()) == Some(mid));
    if l.value.len() > 0 {
        lemma_text_field_fold(2, l.value, mid, label_steps());
        lemma_text_round_trip(l.value);
    } else {
        assert(l.value =~= Seq::<char>::empty());
    }
}

/// A sample decodes back to itself.
pub proof fn lemma_sample_round_trip(x: Sample)
    ensures
        decode_sample_spec(encode_sample_spec(x)) == Some(x),
{
    let a: Seq<Field> = if x.value_bits == 0 {
        Seq::empty()
    } else {
        seq![Field { number: 1, wire: Wire::Fixed64(le_bytes(x.value_bits as nat, 8)) }]
    };
    let b: Seq<Field> = if x.timestamp == 0 {
        Seq::empty()
    } else {
        seq![Field { number: 2, wire: Wire::Varint(u64_of(x.timestamp)) }]
    };
    let fs = sample_fields(x);
    assert(fs == a + b);
    lemma_fixed64_round_trip(x.value_bits);
    assert forall|i: int| 0 <= i < fs.len() implies wf_field(#[trigger] fs[i]) by {}
    lemma_decode_encoded(fs, sample_default(), sample_steps());
    lemma_fold_steps_append(a, b, sample_default(), sample_steps());
    reveal_with_fuel(fold_steps, 2);
    let mid = Sample { value_bits: x.value_bits, timestamp: 0 };
    if x.value_bits != 0 {
        assert(a.drop_first() =~= Seq::<Field>::empty());
    }
    assert(fold_steps(a, sample_default(), sample_steps()) == Some(mid));
    if x.timestamp != 0 {
        assert(b.drop_first() =~= Seq::<Field>::empty());
        assert(i64_of(u64_of(x.timestamp)) == x.timestamp);
    }
}

/// Folding over the label fields of a series appends the labels in order.
#[verifier::rlimit(40)]
proof fn lemma_label_entries_fold(ls: Seq<LabelView>, acc: TimeSeriesView)
    requires
        forall|i: int| 0 <= i < ls.len() ==> decode_label_spec(encode_label_spec(#[trigger] ls[i])) == Some(ls[i]),
    ensures
        fold_steps(label_entries(ls), acc, series_steps()) == Some(
            TimeSeriesView { labels: acc.labels + ls, samples: acc.samples },
        ),
    decreases ls.len(),
{
    if ls.len() == 0 {
        assert(acc.labels + ls =~= acc.labels);
    } else {
        assert(decode_label_spec(encode_label_spec(ls[0])) == Some(ls[0]));
        let next = TimeSeriesView { labels: acc.labels.push(ls[0]), samples: acc.samples };
        let es = label_entries(ls);
        assert(es[0] == Field { number: 1, wire: Wire::Bytes(encode_label_spec(ls[0])) });
        assert(series_step(acc, es[0]) == Some(next));
        assert(fold_steps(es, acc, series_steps()) == fold_steps(es.drop_first(), next, series_steps()));
        assert(label_entries(ls).drop_first() =~= label_entries(ls.drop_first()));
        assert forall|i: int| 0 <= i < ls.drop_first().len() implies decode_label_spec(
            encode_label_spec(#[trigger] ls.drop_first()[i]),
        ) == Some(ls.drop_first()[i]) by {
            assert(ls.drop_first()[i] == ls[i + 1]);
        }
        lemma_label_entries_fold(ls.drop_first(), next);
        assert(next.labels + ls.drop_first() =~= acc.labels + ls);
    }
}

/// Folding over the sample fields of a series appends the samples in order.
#[verifier::rlimit(40)]
proof fn lemma_sample_entries_fold(ss: Seq<Sample>, acc: TimeSeriesView)
    ensures
        fold_steps(sample_entries(ss), acc, series_steps()) == Some(
            TimeSeriesView { labels: acc.labels, samples: acc.samples + ss },
        ),
    decreases ss.len(),
{
    if ss.len() == 0 {
        assert(acc.samples + ss =~= acc.samples);
    } else {
        lemma_sample_round_trip(ss[0]);
        let next = TimeSeriesView { labels: acc.labels, samples: acc.samples.push(ss[0]) };
        let es = sample_entries(ss);
        assert(es[0] == Field { number: 2, wire: Wire::Bytes(encode_sample_spec(ss[0])) });
        assert(series_step(acc, es[0]) == Some(next));
        assert(fold_steps(es, acc, series_steps()) == fold_steps(es.drop_first(), next, series_steps()));
        assert(sample_entries(ss).drop_first() =~= sample_entries(ss.drop_first()));
        lemma_sample_entries_fold(ss.drop_first(), next);
        assert(next.samples + ss.drop_first() =~= acc.samples + ss);
    }
}

/// A series whose encoding fits in 64-bit lengths decodes back to itself.
pub proof fn lemma_series_round_trip(t: TimeSeriesView)
    requires
        encode_series_spec(t).len() < 0x1_0000_0000_0000_0000,
    ensures
        decode_series_spec(encode_series_spec(t)) == Some(t),
{
    let fs = series_fields(t);
    let nl = t.labels.len() as int;
    assert forall|i: int| 0 <= i < fs.len() implies wf_field(#[trigger] fs[i]) by {
        lemma_payload_within(fs, i);
    }
    assert forall|i: int| 0 <= i < t.labels.len() implies decode_label_spec(
        encode_label_spec(#[trigger] t.labels[i]),
    ) == Some(t.labels[i]) by {
        assert(fs[i] == label_entries(t.labels)[i]);
        lemma_payload_within(fs, i);
        lemma_label_round_trip(t.labels[i]);
    }
    lemma_decode_encoded(fs, series_default(), series_steps());
    lemma_fold_steps_append(label_entries(t.labels), sample_entries(t.samples), series_default(), series_steps());
    lemma_label_entries_fold(t.labels, series_default());
    let mid = TimeSeriesView { labels: Seq::empty() + t.labels, samples: Seq::empty() };
    lemma_sample_entries_fold(t.samples, mid);
    assert(Seq::<LabelView>::empty() + t.labels =~= t.labels);
    assert(Seq::<Sample>::empty() + t.samples =~= t.samples);
}

/// Folding over the series fields of a write request appends the series in
/// order.
#[verifier::rlimit(40)]
proof fn lemma_series_entries_fold(ts: Seq<TimeSeriesView>, acc: WriteRequestView)
    requires
        forall|i: int| 0 <= i < ts.len() ==> decode_series_spec(encode_series_spec(#[trigger] ts[i])) == Some(ts[i]),
    ensures
        fold_steps(series_entries(ts), acc, write_request_steps()) == Some(
            WriteRequestView { timeseries: acc.timeseries + ts },
        ),
    decreases ts.len(),
{
    if ts.len() == 0 {
        assert(acc.timeseries + ts =~= acc.timeseries);
    } else {
        assert(decode_series_spec(encode_series_spec(ts[0])) == Some(ts[0]));
        let next = WriteRequestView { timeseries: acc.timeseries.push(ts[0]) };
        let es = series_entries(ts);
        assert(es[0] == Field { number: 1, wire: Wire::Bytes(encode_series_spec(ts[0])) });
        assert(write_request_step(acc, es[0]) == Some(next));
        assert(fold_steps(es, acc, write_request_steps()) == fold_steps(es.drop_first(), next, write_request_steps()));
        assert(series_entries(ts).drop_first() =~= series_entries(ts.drop_first()));
        assert forall|i: int| 0 <= i < ts.drop_first().len() implies decode_series_spec(
            encode_series_spec(#[trigger] ts.drop_first()[i]),
        ) == Some(ts.drop_first()[i]) by {
            assert(ts.drop_first()[i] == ts[i + 1]);
        }
        lemma_series_entries_fold(ts.drop_first(), next);
        assert(next.timeseries + ts.drop_first() =~= acc.timeseries + ts);
    }
}

/// Round trip: a write request whose encoding fits in 64-bit lengths decodes
/// back to itself, every series with its labels and samples in order.
pub proof fn lemma_write_request_round_trip(w: WriteRequestView)
    requires
        encode_write_request_spec(w).len() < 0x1_0000_0000_0000_0000,
    ensures
        decode_write_request_spec(encode_write_request_spec(w)) == Some(w),
{
    let fs = series_entries(w.timeseries);
    assert forall|i: int| 0 <= i < fs.len() implies wf_field(#[trigger] fs[i]) by {
        lemma_payload_within(fs, i);
    }
    assert forall|i: int| 0 <= i < w.timeseries.len() implies decode_series_spec(
        encode_series_spec(#[trigger] w.timeseries[i]),
    ) == Some(w.timeseries[i]) by {
        lemma_payload_within(fs, i);
        lemma_series_round_trip(w.timeseries[i]);
    }
    lemma_decode_encoded(fs, write_request_default(), write_request_steps());
    lemma_series_entries_fold(w.timeseries, write_request_default());
    assert(Seq::<TimeSeriesView>::empty() + w.timeseries =~= w.timeseries);
}

#[verifier::rlimit(40)]
proof fn lemma_result_series_fold(ts: Seq<TimeSeriesView>, acc: QueryResultView)
    requires
        forall|i: int| 0 <= i < ts.len() ==> decode_series_spec(encode_series_spec(#[trigger] ts[i])) == Some(ts[i]),
    ensures
        fold_steps(series_entries(ts), acc, query_result_steps()) == Some(
            QueryResultView { timeseries: acc.timeseries + ts },
        ),
    decreases ts.len(),
{
    if ts.len() == 0 {
        assert(acc.timeseries + ts =~= acc.timeseries);
    } else {
        assert(decode_series_spec(encode_series_spec(ts[0])) == Some(ts[0]));
        let next = QueryResultView { timeseries: acc.timeseries.push(ts[0]) };
        let es = series_entries(ts);
        assert(es[0] == Field { number: 1, wire: Wire::Bytes(encode_series_spec(ts[0])) });
        assert(query_result_step(acc, es[0]) == Some(next));
        assert(fold_steps(es, acc, query_result_steps()) == fold_steps(es.drop_first(), next, query_result_steps()));
        assert(series_entries(ts).drop_first() =~= series_entries(ts.drop_first()));
        assert forall|i: int| 0 <= i < ts.drop_first().len() implies decode_series_spec(
            encode_series_spec(#[trigger] ts.drop_first()[i]),
        ) == Some(ts.drop_first()[i]) by {
            assert(ts.drop_first()[i] == ts[i + 1]);
        }
        lemma_result_series_fold(ts.drop_first(), next);
        assert(next.timeseries + ts.drop_first() =~= acc.timeseries + ts);
    }
}

/// A query result whose encoding fits in 64-bit lengths decodes back to
/// itself.
pub proof fn lemma_query_result_round_trip(q: QueryResultView)
    requires
        encode_query_result_spec(q).len() < 0x1_0000_0000_0000_0000,
    ensures
        decode_query_result_spec(encode_query_result_spec(q)) == Some(q),
{
    let fs = series_entries(q.timeseries);
    assert forall|i: int| 0 <= i < fs.len() implies wf_field(#[trigger] fs[i]) by {
        lemma_payload_within(fs, i);
    }
    assert forall|i: int| 0 <= i < q.timeseries.len() implies decode_series_spec(
        encode_series_spec(#[trigger] q.timeseries[i]),
    ) == Some(q.timeseries[i]) by {
        lemma_payload_within(fs, i);
        lemma_series_round_trip(q.timeseries[i]);
    }
    lemma_decode_encoded(fs, query_result_default(), query_result_steps());
    lemma_result_series_fold(q.timeseries, query_result_default());
    assert(Seq::<TimeSeriesView>::empty() + q.timeseries =~= q.timeseries);
}

#[verifier::rlimit(40)]
proof fn lemma_results_fold(rs: Seq<QueryResultView>, acc: ReadResponseView)
    requires
        forall|i: int| 0 <= i < rs.len() ==> decode_query_result_spec(encode_query_result_spec(#[trigger] rs[i]))
            == Some(rs[i]),
    ensures
        fold_steps(result_entries(rs), acc, read_response_steps()) == Some(
            ReadResponseView { results: acc.results + rs },
        ),
    decreases rs.len(),
{
    if rs.len() == 0 {
        assert(acc.results + rs =~= acc.results);
    } else {
        assert(decode_query_result_spec(encode_query_result_spec(rs[0])) == Some(rs[0]));
        let next = ReadResponseView { results: acc.results.push(rs[0]) };
        let es = result_entries(rs);
        assert(es[0] == Field { number: 1, wire: Wire::Bytes(encode_query_result_spec(rs[0])) });
        assert(read_response_step(acc, es[0]) == Some(next));
        assert(es.drop_first() =~= result_entries(rs.drop_first()));
        assert(fold_steps(es, acc, read_response_steps()) == fold_steps(es.drop_first(), next, read_response_steps()));
        assert forall|i: int| 0 <= i < rs.drop_first().len() implies decode_query_result_spec(
            encode_query_result_spec(#[trigger] rs.drop_first()[i]),
        ) == Some(rs.drop_first()[i]) by {
            assert(rs.drop_first()[i] == rs[i + 1]);
        }
        lemma_results_fold(rs.drop_first(), next);
        assert(next.results + rs.drop_first() =~= acc.results + rs);
    }
}

/// Round trip: a read response whose encoding fits in 64-bit lengths decodes
/// back to itself, its results in order.
pub proof fn lemma_read_response_round_trip(r: ReadResponseView)
    requires
        encode_read_response_spec(r).len() < 0x1_0000_0000_0000_0000,
    ensures
        decode_read_response_spec(encode_read_response_spec(r)) == Some(r),
{
    let fs = result_entries(r.results);
    assert forall|i: int| 0 <= i < fs.len() implies wf_field(#[trigger] fs[i]) by {
        lemma_payload_within(fs, i);
    }
    assert forall|i: int| 0 <= i < r.results.len() implies decode_query_result_spec(
        encode_query_result_spec(#[trigger] r.results[i]),
    ) == Some(r.results[i]) by {
        lemma_payload_within(fs, i);
        lemma_query_result_round_trip(r.results[i]);
    }
    lemma_decode_encoded(fs, read_response_default(), read_response_steps());
    lemma_results_fold(r.results, read_response_default());
    assert(Seq::<QueryResultView>::empty() + r.results =~= r.results);
}

/// Round trip through a reply body: a snappy block that holds the encoding
/// of `r` (as `encode_read_body` produces) decodes back to `r`.
pub proof fn lemma_read_body_round_trip(r: ReadResponseView, body: Seq<u8>)
    requires
        snappy_decompressed(body) == Some(encode_read_response_spec(r)),
        encode_read_response_spec(r).len() < 0x1_0000_0000_0000_0000,
    ensures
        snappy_decompressed(body) matches Some(raw) && decode_read_response_spec(raw) == Some(r),
{
    lemma_read_response_round_trip(r);
}

/// Round trip through a request body: a snappy block that holds the encoding
/// of `w` (as `encode_write_body` produces) decodes back to `w`.
pub proof fn lemma_write_body_round_trip(w: WriteRequestView, body: Seq<u8>)
    requires
        snappy_decompressed(body) == Some(encode_write_request_spec(w)),
        encode_write_request_spec(w).len() < 0x1_0000_0000_0000_0000,
    ensures
        snappy_decompressed(body) matches Some(raw) && decode_write_request_spec(raw) == Some(w),
{
    lemma_write_request_round_trip(w);
}

} // verus!
