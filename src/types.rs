//! The remote storage messages, with their mathematical views.
use vstd::prelude::*;

verus! {

/// Why a request could not be decoded or a response encoded.
#[derive(Debug)]
pub enum Error {
    /// The response could not be compressed.
    SnappyEncode,
    /// The request body is not a valid snappy block.
    SnappyDecode,
    /// The request body could not be read; the text says why.
    ReadRequest(String),
    /// The decompressed body is not a valid message of the expected schema.
    ProtoDecode,
}

impl Error {
    /// Whether the client caused the failure (a body that does not decode, or
    /// could not be read) rather than the server (a response that could not
    /// be compressed).
    pub fn is_client_error(&self) -> (r: bool)
        ensures
            r == !(self is SnappyEncode),
    {
        match self {
            Error::SnappyEncode => false,
            _ => true,
        }
    }

    /// The short name of the failure.
    pub fn kind_name(&self) -> (r: &'static str)
        ensures
            self is SnappyEncode ==> r@ == "SnappyEncode"@,
            self is SnappyDecode ==> r@ == "SnappyDecode"@,
            self is ReadRequest ==> r@ == "ReadRequest"@,
            self is ProtoDecode ==> r@ == "ProtoDecode"@,
    {
        match self {
            Error::SnappyEncode => "SnappyEncode",
            Error::SnappyDecode => "SnappyDecode",
            Error::ReadRequest(_) => "ReadRequest",
            Error::ProtoDecode => "ProtoDecode",
        }
    }
}

/// One observation of a metric. `value_bits` holds the IEEE-754 bit pattern of
/// the sample's double value; `timestamp` is in milliseconds since the epoch.
#[derive(Clone, Copy, Debug, PartialEq, Eq, Structural)]
pub struct Sample {
    pub value_bits: u64,
    pub timestamp: i64,
}

/// A name/value pair; by convention the names within a series are unique.
#[derive(Clone, Debug)]
pub struct Label {
    pub name: String,
    pub value: String,
}

/// What a `Label` holds, as mathematical values.
pub struct LabelView {
    pub name: Seq<char>,
    pub value: Seq<char>,
}

impl View for Label {
    type V = LabelView;

    open spec fn view(&self) -> LabelView {
        LabelView { name: self.name@, value: self.value@ }
    }
}

/// One series: its labels, and its samples, by convention in ascending
/// timestamp order (neither is checked).
#[derive(Clone, Debug)]
pub struct TimeSeries {
    pub labels: Vec<Label>,
    pub samples: Vec<Sample>,
}

/// What a `TimeSeries` holds, as mathematical values.
pub struct TimeSeriesView {
    pub labels: Seq<LabelView>,
    pub samples: Seq<Sample>,
}

impl View for TimeSeries {
    type V = TimeSeriesView;

    open spec fn view(&self) -> TimeSeriesView {
        TimeSeriesView { labels: self.labels@.map_values(|l: Label| l@), samples: self.samples@ }
    }
}

/// A batch of series to persist.
#[derive(Clone, Debug)]
pub struct WriteRequest {
    pub timeseries: Vec<TimeSeries>,
}

/// What a `WriteRequest` holds, as mathematical values.
pub struct WriteRequestView {
    pub timeseries: Seq<TimeSeriesView>,
}

impl View for WriteRequest {
    type V = WriteRequestView;

    open spec fn view(&self) -> WriteRequestView {
        WriteRequestView { timeseries: self.timeseries@.map_values(|t: TimeSeries| t@) }
    }
}

/// A label predicate of a query. `kind` is the matcher type as it stands on
/// the wire: 0 equal, 1 not equal, 2 regex match, 3 regex mismatch.
#[derive(Clone, Debug)]
pub struct LabelMatcher {
    pub kind: i32,
    pub name: String,
    pub value: String,
}

/// What a `LabelMatcher` holds, as mathematical values.
pub struct LabelMatcherView {
    pub kind: i32,
    pub name: Seq<char>,
    pub value: Seq<char>,
}

impl View for LabelMatcher {
    type V = LabelMatcherView;

    open spec fn view(&self) -> LabelMatcherView {
        LabelMatcherView { kind: self.kind, name: self.name@, value: self.value@ }
    }
}

/// Advisory metadata that a backend may use to shape its answer.
#[derive(Clone, Debug)]
pub struct ReadHints {
    pub step_ms: i64,
    pub func: String,
    pub start_ms: i64,
    pub end_ms: i64,
    pub grouping: Vec<String>,
    pub by: bool,
    pub range_ms: i64,
}

/// What a `ReadHints` holds, as mathematical values.
pub struct ReadHintsView {
    pub step_ms: i64,
    pub func: Seq<char>,
    pub start_ms: i64,
    pub end_ms: i64,
    pub grouping: Seq<Seq<char>>,
    pub by: bool,
    pub range_ms: i64,
}

impl View for ReadHints {
    type V = ReadHintsView;

    open spec fn view(&self) -> ReadHintsView {
        ReadHintsView {
            step_ms: self.step_ms,
            func: self.func@,
            start_ms: self.start_ms,
            end_ms: self.end_ms,
            grouping: self.grouping@.map_values(|g: String| g@),
            by: self.by,
            range_ms: self.range_ms,
        }
    }
}

/// One query: a time range in milliseconds, label matchers and optional hints.
#[derive(Clone, Debug)]
pub struct Query {
    pub start_timestamp_ms: i64,
    pub end_timestamp_ms: i64,
    pub matchers: Vec<LabelMatcher>,
    pub hints: Option<ReadHints>,
}

/// What a `Query` holds, as mathematical values.
pub struct QueryView {
    pub start_timestamp_ms: i64,
    pub end_timestamp_ms: i64,
    pub matchers: Seq<LabelMatcherView>,
    pub hints: Option<ReadHintsView>,
}

impl View for Query {
    type V = QueryView;

    open spec fn view(&self) -> QueryView {
        QueryView {
            start_timestamp_ms: self.start_timestamp_ms,
            end_timestamp_ms: self.end_timestamp_ms,
            matchers: self.matchers@.map_values(|m: LabelMatcher| m@),
            hints: match self.hints {
                Some(h) => Some(h@),
                None => None,
            },
        }
    }
}

/// The answer to one query.
#[derive(Clone, Debug)]
pub struct QueryResult {
    pub timeseries: Vec<TimeSeries>,
}

/// What a `QueryResult` holds, as mathematical values.
pub struct QueryResultView {
    pub timeseries: Seq<TimeSeriesView>,
}

impl View for QueryResult {
    type V = QueryResultView;

    open spec fn view(&self) -> QueryResultView {
        QueryResultView { timeseries: self.timeseries@.map_values(|t: TimeSeries| t@) }
    }
}

/// One or more independent queries bundled in one call.
#[derive(Clone, Debug)]
pub struct ReadRequest {
    pub queries: Vec<Query>,
}

/// What a `ReadRequest` holds, as mathematical values.
pub struct ReadRequestView {
    pub queries: Seq<QueryView>,
}

impl View for ReadRequest {
    type V = ReadRequestView;

    open spec fn view(&self) -> ReadRequestView {
        ReadRequestView { queries: self.queries@.map_values(|q: Query| q@) }
    }
}

/// The answers to a read request; `results[i]` answers `queries[i]`.
#[derive(Clone, Debug)]
pub struct ReadResponse {
    pub results: Vec<QueryResult>,
}

/// What a `ReadResponse` holds, as mathematical values.
pub struct ReadResponseView {
    pub results: Seq<QueryResultView>,
}

impl View for ReadResponse {
    type V = ReadResponseView;

    open spec fn view(&self) -> ReadResponseView {
        ReadResponseView { results: self.results@.map_values(|r: QueryResult| r@) }
    }
}

/// The empty reply to a successful write.
pub struct WriteResponse;

impl From<()> for WriteResponse {
    fn from(v: ()) -> (r: WriteResponse) {
        WriteResponse
    }
}

impl vstd::std_specs::convert::FromSpecImpl<()> for WriteResponse {
    open spec fn obeys_from_spec() -> bool {
        true
    }

    open spec fn from_spec(v: ()) -> WriteResponse {
        WriteResponse
    }
}

} // verus!
