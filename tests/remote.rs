use prom_remote_api::codec::{
    decode_read_response, decode_read_response_body, decode_read_body, decode_read_request, decode_write_body, decode_write_request, encode_read_body,
    encode_read_response, encode_write_body, encode_write_request,
};
use prom_remote_api::mock::{count_to_double_bits, generate_samples, MockStorage};
use prom_remote_api::storage::{assemble_read_response, RemoteStorage};
use prom_remote_api::types::{
    Error, Label, Query, QueryResult, ReadHints, ReadRequest, ReadResponse, Sample, TimeSeries,
    WriteRequest, WriteResponse,
};
use prom_remote_api::wire::{read_fixed64, read_varint, write_fixed64, write_varint};

fn label(name: &str, value: &str) -> Label {
    Label { name: name.to_string(), value: value.to_string() }
}

fn sample(value: f64, timestamp: i64) -> Sample {
    Sample { value_bits: value.to_bits(), timestamp }
}

fn query(start: i64, end: i64, step: Option<i64>) -> Query {
    Query {
        start_timestamp_ms: start,
        end_timestamp_ms: end,
        matchers: Vec::new(),
        hints: step.map(|s| ReadHints {
            step_ms: s,
            func: String::new(),
            start_ms: 0,
            end_ms: 0,
            grouping: vec![],
            by: false,
            range_ms: 0,
        }),
    }
}

fn sample_write_request() -> WriteRequest {
    WriteRequest {
        timeseries: vec![
            TimeSeries {
                labels: vec![label("__name__", "up"), label("job", "node"), label("city", "Zürich")],
                samples: vec![sample(1.5, 1000), sample(-0.0, -7), sample(0.0, 0), sample(f64::MAX, i64::MAX)],
            },
            TimeSeries { labels: vec![], samples: vec![] },
            TimeSeries { labels: vec![label("", "")], samples: vec![sample(f64::NAN, i64::MIN)] },
        ],
    }
}

fn assert_same_write(a: &WriteRequest, b: &WriteRequest) {
    assert_eq!(a.timeseries.len(), b.timeseries.len());
    for (x, y) in a.timeseries.iter().zip(b.timeseries.iter()) {
        assert_eq!(x.labels.len(), y.labels.len());
        for (l, m) in x.labels.iter().zip(y.labels.iter()) {
            assert_eq!(l.name, m.name);
            assert_eq!(l.value, m.value);
        }
        assert_eq!(x.samples, y.samples);
    }
}

#[test]
fn write_request_round_trip_through_body() {
    let w = sample_write_request();
    let body = encode_write_body(&w).ok().expect("encodes");
    let back = decode_write_body(&body).ok().expect("decodes");
    assert_same_write(&w, &back);
}

#[test]
fn write_request_round_trip_message() {
    let w = sample_write_request();
    let bytes = encode_write_request(&w);
    let back = decode_write_request(&bytes).expect("decodes");
    assert_same_write(&w, &back);
}

#[test]
fn empty_write_request_encodes_to_nothing() {
    let w = WriteRequest { timeseries: vec![] };
    assert!(encode_write_request(&w).is_empty());
    let back = decode_write_request(&[]).expect("decodes");
    assert!(back.timeseries.is_empty());
}

#[test]
fn write_request_exact_bytes() {
    let w = WriteRequest {
        timeseries: vec![TimeSeries { labels: vec![label("a", "b")], samples: vec![sample(1.0, 1)] }],
    };
    let expected: Vec<u8> = vec![
        0x0a, 0x15, // one series of 21 bytes
        0x0a, 0x06, 0x0a, 0x01, b'a', 0x12, 0x01, b'b', // its label
        0x12, 0x0b, 0x09, 0, 0, 0, 0, 0, 0, 0xf0, 0x3f, 0x10, 0x01, // its sample: 1.0 at 1
    ];
    assert_eq!(encode_write_request(&w), expected);
}

#[test]
fn corrupted_frame_is_a_decompression_error() {
    let w = sample_write_request();
    let mut body = encode_write_body(&w).ok().expect("encodes");
    body.truncate(body.len() / 2);
    assert!(matches!(decode_write_body(&body), Err(Error::SnappyDecode)));
    assert!(matches!(decode_write_body(&[0xff, 0xff, 0xff, 0xff, 0xff, 0xff]), Err(Error::SnappyDecode)));
    assert!(matches!(decode_read_body(&[]), Err(Error::SnappyDecode)));
    assert!(matches!(decode_write_body(&[]), Err(Error::SnappyDecode)));
}

#[test]
fn bad_message_is_a_schema_error() {
    // a key with wire type 7 does not parse
    let body = snap::raw::Encoder::new().compress_vec(&[0x0f, 0x00]).unwrap();
    assert!(matches!(decode_write_body(&body), Err(Error::ProtoDecode)));
    // a series field holding a varint has the wrong wire type
    let body = snap::raw::Encoder::new().compress_vec(&[0x08, 0x01]).unwrap();
    assert!(matches!(decode_read_body(&body), Err(Error::ProtoDecode)));
    // a truncated length-delimited field
    let body = snap::raw::Encoder::new().compress_vec(&[0x0a, 0x05, 0x01]).unwrap();
    assert!(matches!(decode_write_body(&body), Err(Error::ProtoDecode)));
    // a label name that is not UTF-8
    let raw = [0x0a, 0x06, 0x0a, 0x04, 0x0a, 0x02, 0xff, 0xfe];
    assert!(decode_write_request(&raw).is_none());
}

#[test]
fn unknown_fields_are_skipped() {
    // field 15 as a varint, field 3 as fixed32, then an empty series
    let raw = [0x78, 0x05, 0x1d, 1, 2, 3, 4, 0x0a, 0x00];
    let w = decode_write_request(&raw).expect("decodes");
    assert_eq!(w.timeseries.len(), 1);
}

#[test]
fn unknown_groups_are_skipped() {
    // group 5 holding a varint and a nested group 2, then an empty series
    let raw = [0x2b, 0x08, 0x01, 0x13, 0x14, 0x2c, 0x0a, 0x00];
    assert_eq!(decode_write_request(&raw).map(|w| w.timeseries.len()), Some(1));
    // an end-group key that does not match its group
    assert!(decode_write_request(&[0x2b, 0x14]).is_none());
    // a group left open
    assert!(decode_write_request(&[0x2b, 0x08, 0x01]).is_none());
    // an end-group key outside any group
    assert!(decode_write_request(&[0x2c]).is_none());
    // a known field sent as a group
    assert!(decode_write_request(&[0x0b, 0x0c]).is_none());
}

#[test]
fn groups_nest_at_most_one_hundred_deep() {
    let mut ok = vec![0x3b; 100];
    ok.extend(vec![0x3c; 100]);
    assert_eq!(decode_write_request(&ok).map(|w| w.timeseries.len()), Some(0));
    let mut deep = vec![0x3b; 101];
    deep.extend(vec![0x3c; 101]);
    assert!(decode_write_request(&deep).is_none());
}

#[test]
fn read_request_decodes_queries_in_order() {
    let raw: Vec<u8> = vec![
        0x0a, 0x16, // first query, 22 bytes
        0x08, 0xe8, 0x07, // start 1000
        0x10, 0xd0, 0x0f, // end 2000
        0x1a, 0x0a, 0x08, 0x01, 0x12, 0x01, b'j', 0x1a, 0x03, b'a', b'p', b'i', // matcher j != "api"
        0x22, 0x02, 0x08, 0x05, // hints: step 5
        0x0a, 0x0b, 0x08, 0xff, 0xff, 0xff, 0xff, 0xff, 0xff, 0xff, 0xff, 0xff, 0x01, // second query: start -1
    ];
    let req = decode_read_request(&raw).expect("decodes");
    assert_eq!(req.queries.len(), 2);
    let q = &req.queries[0];
    assert_eq!(q.start_timestamp_ms, 1000);
    assert_eq!(q.end_timestamp_ms, 2000);
    assert_eq!(q.matchers.len(), 1);
    assert_eq!(q.matchers[0].kind, 1);
    assert_eq!(q.matchers[0].name, "j");
    assert_eq!(q.matchers[0].value, "api");
    assert_eq!(q.hints.as_ref().map(|h| h.step_ms), Some(5));
    assert_eq!(req.queries[1].start_timestamp_ms, -1);
    assert!(req.queries[1].hints.is_none());
    let body = snap::raw::Encoder::new().compress_vec(&raw).unwrap();
    let again = decode_read_body(&body).ok().expect("decodes");
    assert_eq!(again.queries.len(), 2);
}

#[test]
fn hints_decode_every_field_and_merge() {
    let raw: Vec<u8> = vec![
        0x0a, 0x1a, // one query, 26 bytes
        0x22, 0x11, // hints, 17 bytes
        0x08, 0x0a, // step 10
        0x12, 0x04, b'r', b'a', b't', b'e', // func "rate"
        0x18, 0x01, // start 1
        0x20, 0x02, // end 2
        0x2a, 0x01, b'x', // grouping "x"
        0x30, 0x01, // by
        0x22, 0x05, // hints again, merged into the first
        0x2a, 0x01, b'y', 0x38, 0x03, // grouping "y", range 3
    ];
    let req = decode_read_request(&raw).expect("decodes");
    let h = req.queries[0].hints.as_ref().expect("hints");
    assert_eq!(h.step_ms, 10);
    assert_eq!(h.func, "rate");
    assert_eq!((h.start_ms, h.end_ms, h.range_ms), (1, 2, 3));
    assert_eq!(h.grouping, vec!["x".to_string(), "y".to_string()]);
    assert!(h.by);
}

#[test]
fn read_response_body_decompresses_to_its_message() {
    let resp = ReadResponse {
        results: vec![
            QueryResult { timeseries: vec![TimeSeries { labels: vec![label("a", "b")], samples: vec![] }] },
            QueryResult { timeseries: vec![] },
        ],
    };
    let message = encode_read_response(&resp);
    assert_eq!(message, vec![0x0a, 0x0a, 0x0a, 0x08, 0x0a, 0x06, 0x0a, 0x01, b'a', 0x12, 0x01, b'b', 0x0a, 0x00]);
    let body = encode_read_body(&resp).ok().expect("encodes");
    assert_eq!(snap::raw::Decoder::new().decompress_vec(&body).unwrap(), message);
    assert_ne!(body, message);
}

#[test]
fn mock_read_answers_each_query_in_order() {
    let req = ReadRequest {
        queries: vec![query(1000, 2000, Some(0)), query(0, 5000, Some(1000)), query(0, 2500, None)],
    };
    let resp = MockStorage.read(7, req).ok().expect("reads");
    assert_eq!(resp.results.len(), 3);
    let counts: Vec<usize> = resp.results.iter().map(|r| r.timeseries[0].samples.len()).collect();
    assert_eq!(counts, vec![1, 5, 1]);
    let names: Vec<&str> = resp.results[0].timeseries[0].labels.iter().map(|l| l.name.as_str()).collect();
    assert_eq!(names, vec!["job", "instance", "__name__"]);
}

#[test]
fn query_without_hints_is_instant() {
    let req = ReadRequest { queries: vec![query(0, 5000, None), query(300, 100, None)] };
    let resp = MockStorage.read(1, req).ok().expect("reads");
    assert_eq!(resp.results[0].timeseries[0].samples, vec![sample(1.0, 0)]);
    assert_eq!(resp.results[1].timeseries[0].samples, vec![sample(1.0, 300)]);
}

#[test]
fn mock_write_accepts_every_batch() {
    assert!(MockStorage.write(3, sample_write_request()).is_ok());
}

#[test]
fn read_response_round_trip_through_body() {
    let resp = MockStorage
        .read(1, ReadRequest { queries: vec![query(0, 5000, Some(1000)), query(7, 7, None)] })
        .ok()
        .expect("reads");
    let body = encode_read_body(&resp).ok().expect("encodes");
    let back = decode_read_response_body(&body).ok().expect("decodes");
    assert_eq!(back.results.len(), 2);
    for (a, b) in resp.results.iter().zip(back.results.iter()) {
        assert_same_write(
            &WriteRequest { timeseries: a.timeseries.clone() },
            &WriteRequest { timeseries: b.timeseries.clone() },
        );
    }
    let message = encode_read_response(&resp);
    assert_eq!(decode_read_response(&message).map(|r| r.results.len()), Some(2));
    assert!(matches!(decode_read_response_body(&[]), Err(Error::SnappyDecode)));
}

#[test]
fn client_errors_are_the_decoding_ones() {
    assert!(!Error::SnappyEncode.is_client_error());
    assert!(Error::SnappyDecode.is_client_error());
    assert!(Error::ProtoDecode.is_client_error());
    assert!(Error::ReadRequest("closed".to_string()).is_client_error());
}

#[test]
fn empty_read_yields_empty_response() {
    let resp = MockStorage.read(0, ReadRequest { queries: vec![] }).ok().expect("reads");
    assert!(resp.results.is_empty());
}

#[test]
fn one_failing_query_fails_the_read() {
    // the middle query spans more samples than doubles count exactly
    let req = ReadRequest {
        queries: vec![query(0, 10, None), query(i64::MIN, i64::MAX, Some(1)), query(0, 10, None)],
    };
    assert!(MockStorage.read(1, req).is_err());
    let ok = ReadRequest { queries: vec![query(0, 10, None), query(3, 3, Some(1))] };
    assert_eq!(MockStorage.read(1, ok).ok().map(|r| r.results.len()), Some(2));
}

#[test]
fn assembled_response_keeps_order_or_fails_first() {
    let one = QueryResult { timeseries: vec![TimeSeries { labels: vec![label("n", "1")], samples: vec![] }] };
    let two = QueryResult { timeseries: vec![] };
    let resp = assemble_read_response::<u8>(vec![Ok(one), Ok(two)]).ok().expect("gathers");
    assert_eq!(resp.results.len(), 2);
    assert_eq!(resp.results[0].timeseries.len(), 1);
    assert_eq!(resp.results[1].timeseries.len(), 0);
    let failed = assemble_read_response::<u8>(vec![Ok(QueryResult { timeseries: vec![] }), Err(4), Err(5)]);
    assert_eq!(failed.err(), Some(4));
    assert!(assemble_read_response::<u8>(vec![]).ok().expect("empty").results.is_empty());
}

#[test]
fn instant_query_gives_one_sample() {
    let s = generate_samples(1000, 2000, 0);
    assert_eq!(s, vec![sample(1.0, 1000)]);
}

#[test]
fn range_query_gives_stepped_samples() {
    let s = generate_samples(0, 5000, 1000);
    let expected: Vec<Sample> = (0..5).map(|i| sample(1.0 + i as f64, i * 1000)).collect();
    assert_eq!(s, expected);
    assert!(generate_samples(5000, 5000, 1000).is_empty());
    assert_eq!(generate_samples(0, 10, 3).len(), 4);
    // a negative step is read as a huge unsigned one: only the first sample
    assert_eq!(generate_samples(0, 10, -1), vec![sample(1.0, 0)]);
}

#[test]
fn doubles_of_counts_match_the_float_conversion() {
    for n in [1u64, 2, 3, 5, 7, 1000, 123_456_789, (1 << 52) + 1, (1 << 53) - 1] {
        assert_eq!(count_to_double_bits(n), (n as f64).to_bits(), "n = {n}");
    }
}

#[test]
fn varints_encode_and_decode() {
    let mut out = Vec::new();
    write_varint(&mut out, 300);
    assert_eq!(out, vec![0xac, 0x02]);
    assert_eq!(read_varint(&out, 0), Some((300, 2)));
    let mut big = Vec::new();
    write_varint(&mut big, u64::MAX);
    assert_eq!(big.len(), 10);
    assert_eq!(read_varint(&big, 0), Some((u64::MAX, 10)));
    assert_eq!(read_varint(&[0xff; 10], 0), None);
    assert_eq!(read_varint(&[0x80, 0x80], 0), None);
    let mut overflow = vec![0xff; 9];
    overflow.push(0x02);
    assert_eq!(read_varint(&overflow, 0), None);
    assert_eq!(read_varint(&[9, 0x81, 0x01], 1), Some((129, 3)));
}

#[test]
fn fixed64_is_little_endian() {
    let mut out = Vec::new();
    write_fixed64(&mut out, 0x0102_0304_0506_0708);
    assert_eq!(out, vec![8, 7, 6, 5, 4, 3, 2, 1]);
    assert_eq!(read_fixed64(&out, 0), 0x0102_0304_0506_0708);
}

#[test]
fn error_kind_names() {
    assert_eq!(Error::SnappyEncode.kind_name(), "SnappyEncode");
    assert_eq!(Error::SnappyDecode.kind_name(), "SnappyDecode");
    assert_eq!(Error::ReadRequest("x".to_string()).kind_name(), "ReadRequest");
    assert_eq!(Error::ProtoDecode.kind_name(), "ProtoDecode");
    let _w: WriteResponse = WriteResponse::from(());
}
