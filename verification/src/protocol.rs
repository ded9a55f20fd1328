//! Wire types of the ingest protocol, held as plain values, and their mathematical views.

use vstd::prelude::*;

verus! {

/// The only protocol version this server accepts.
pub const PROTOCOL_VERSION: u32 = 1;

/// An attribute value as the ingest logic reads it: a string, an integer,
/// or any other JSON value kept as its JSON text.
#[derive(Debug, Clone, PartialEq, Eq)]
pub enum AttrValue {
    Str(String),
    Int(i64),
    /// An integer above `i64::MAX`.
    UInt(u64),
    /// Any other JSON value (float, bool, null, array, object), as JSON text.
    Other(String),
}

pub enum AttrValueView {
    Str(Seq<char>),
    Int(i64),
    UInt(u64),
    Other(Seq<char>),
}

impl View for AttrValue {
    type V = AttrValueView;

    open spec fn view(&self) -> AttrValueView {
        match self {
            AttrValue::Str(s) => AttrValueView::Str(s@),
            AttrValue::Int(i) => AttrValueView::Int(*i),
            AttrValue::UInt(u) => AttrValueView::UInt(*u),
            AttrValue::Other(t) => AttrValueView::Other(t@),
        }
    }
}

/// One key/value entry of an attribute map, in the order the map was received.
#[derive(Debug, Clone, PartialEq, Eq)]
pub struct Attribute {
    pub key: String,
    pub value: AttrValue,
}

pub struct AttributeView {
    pub key: Seq<char>,
    pub value: AttrValueView,
}

impl View for Attribute {
    type V = AttributeView;

    open spec fn view(&self) -> AttributeView {
        AttributeView { key: self.key@, value: self.value@ }
    }
}

pub open spec fn attrs_view(attrs: Seq<Attribute>) -> Seq<AttributeView> {
    attrs.map_values(|a: Attribute| a@)
}

pub open spec fn opt_view(o: Option<String>) -> Option<Seq<char>> {
    match o {
        Some(s) => Some(s@),
        None => None,
    }
}

/// Value of the first entry with the given key.
pub open spec fn lookup(attrs: Seq<AttributeView>, key: Seq<char>) -> Option<AttrValueView>
    decreases attrs.len(),
{
    if attrs.len() == 0 {
        None
    } else {
        match lookup(attrs.drop_last(), key) {
            Some(v) => Some(v),
            None => if attrs.last().key == key {
                Some(attrs.last().value)
            } else {
                None
            },
        }
    }
}

/// The string held by a value, if it is a string.
pub open spec fn as_str(v: Option<AttrValueView>) -> Option<Seq<char>> {
    match v {
        Some(AttrValueView::Str(s)) => Some(s),
        _ => None,
    }
}

/// Index of the first attribute with the given key.
pub fn find_attr(attrs: &Vec<Attribute>, key: &str) -> (r: Option<usize>)
    ensures
        match r {
            Some(i) => i < attrs.len() && lookup(attrs_view(attrs@), key@) == Some(attrs@[i as int].value@),
            None => lookup(attrs_view(attrs@), key@) is None,
        },
{
    let key_owned: String = key.to_owned();
    let mut i: usize = 0;
    while i < attrs.len()
        invariant
            i <= attrs.len(),
            key_owned@ == key@,
            lookup(attrs_view(attrs@.take(i as int)), key@) is None,
        decreases attrs.len() - i,
    {
        assert(attrs_view(attrs@.take(i + 1)).drop_last() =~= attrs_view(attrs@.take(i as int)));
        if attrs[i].key == key_owned {
            proof {
                let v = attrs_view(attrs@);
                assert(v.take(i + 1) =~= attrs_view(attrs@.take(i + 1)));
                assert(v.take(i + 1).drop_last() =~= attrs_view(attrs@.take(i as int)));
                assert(lookup(v.take(i + 1), key@) == Some(attrs@[i as int].value@));
                lemma_lookup_prefix(v, key@, i + 1);
            }
            return Some(i);
        }
        i = i + 1;
    }
    assert(attrs@.take(i as int) =~= attrs@);
    None
}

/// A lookup that succeeds on a prefix gives the same value on the whole sequence.
pub proof fn lemma_lookup_prefix(attrs: Seq<AttributeView>, key: Seq<char>, n: int)
    requires
        0 <= n <= attrs.len(),
        lookup(attrs.take(n), key) is Some,
    ensures
        lookup(attrs, key) == lookup(attrs.take(n), key),
    decreases attrs.len(),
{
    if n < attrs.len() {
        assert(attrs.drop_last().take(n) =~= attrs.take(n));
        lemma_lookup_prefix(attrs.drop_last(), key, n);
    } else {
        assert(attrs.take(n) =~= attrs);
    }
}

/// Name and version of the client SDK that sent a batch.
#[derive(Debug, Clone, PartialEq, Eq)]
pub struct SdkInfo {
    pub name: String,
    pub version: String,
    pub language: String,
    pub runtime: Option<String>,
}

pub struct SdkInfoView {
    pub name: Seq<char>,
    pub version: Seq<char>,
    pub language: Seq<char>,
    pub runtime: Option<Seq<char>>,
}

impl View for SdkInfo {
    type V = SdkInfoView;

    open spec fn view(&self) -> SdkInfoView {
        SdkInfoView {
            name: self.name@,
            version: self.version@,
            language: self.language@,
            runtime: opt_view(self.runtime),
        }
    }
}

impl Default for SdkInfo {
    fn default() -> (r: SdkInfo)
        ensures
            r.name@ == Seq::<char>::empty(),
            r.version@ == Seq::<char>::empty(),
            r.language@ == Seq::<char>::empty(),
            r.runtime is None,
    {
        SdkInfo { name: String::new(), version: String::new(), language: String::new(), runtime: None }
    }
}

/// A timestamped event recorded on a span.
#[derive(Debug, Clone, PartialEq, Eq)]
pub struct SpanEvent {
    pub time_unix_ns: u64,
    pub name: String,
    pub attributes: Vec<Attribute>,
}

pub struct SpanEventView {
    pub time_unix_ns: u64,
    pub name: Seq<char>,
    pub attributes: Seq<AttributeView>,
}

impl View for SpanEvent {
    type V = SpanEventView;

    open spec fn view(&self) -> SpanEventView {
        SpanEventView {
            time_unix_ns: self.time_unix_ns,
            name: self.name@,
            attributes: attrs_view(self.attributes@),
        }
    }
}

/// One timed operation of a trace.
#[derive(Debug, Clone, PartialEq, Eq)]
pub struct Span {
    pub trace_id: String,
    pub span_id: String,
    pub parent_span_id: Option<String>,
    pub name: String,
    pub kind: String,
    pub resource: Option<String>,
    pub start_time_unix_ns: u64,
    pub end_time_unix_ns: u64,
    pub status: String,
    pub attributes: Vec<Attribute>,
    pub events: Vec<SpanEvent>,
}

pub struct SpanView {
    pub trace_id: Seq<char>,
    pub span_id: Seq<char>,
    pub parent_span_id: Option<Seq<char>>,
    pub name: Seq<char>,
    pub kind: Seq<char>,
    pub resource: Option<Seq<char>>,
    pub start_time_unix_ns: u64,
    pub end_time_unix_ns: u64,
    pub status: Seq<char>,
    pub attributes: Seq<AttributeView>,
    pub events: Seq<SpanEventView>,
}

impl View for Span {
    type V = SpanView;

    open spec fn view(&self) -> SpanView {
        SpanView {
            trace_id: self.trace_id@,
            span_id: self.span_id@,
            parent_span_id: opt_view(self.parent_span_id),
            name: self.name@,
            kind: self.kind@,
            resource: opt_view(self.resource),
            start_time_unix_ns: self.start_time_unix_ns,
            end_time_unix_ns: self.end_time_unix_ns,
            status: self.status@,
            attributes: attrs_view(self.attributes@),
            events: self.events@.map_values(|e: SpanEvent| e@),
        }
    }
}

/// Duration of a span in nanoseconds; zero when it ends before it starts.
pub open spec fn span_duration(s: SpanView) -> u64 {
    if s.end_time_unix_ns >= s.start_time_unix_ns {
        (s.end_time_unix_ns - s.start_time_unix_ns) as u64
    } else {
        0
    }
}

/// A batch of spans sent by one SDK.
#[derive(Debug, Clone, PartialEq, Eq)]
pub struct TraceBatch {
    pub protocol_version: u32,
    pub sdk: SdkInfo,
    pub resource: Vec<Attribute>,
    pub spans: Vec<Span>,
}

pub struct TraceBatchView {
    pub protocol_version: u32,
    pub sdk: SdkInfoView,
    pub resource: Seq<AttributeView>,
    pub spans: Seq<SpanView>,
}

pub open spec fn spans_view(spans: Seq<Span>) -> Seq<SpanView> {
    spans.map_values(|s: Span| s@)
}

impl View for TraceBatch {
    type V = TraceBatchView;

    open spec fn view(&self) -> TraceBatchView {
        TraceBatchView {
            protocol_version: self.protocol_version,
            sdk: self.sdk@,
            resource: attrs_view(self.resource@),
            spans: spans_view(self.spans@),
        }
    }
}

/// Answer to an ingest request.
#[derive(Debug, Clone, PartialEq, Eq)]
pub struct IngestResponse {
    pub ok: bool,
    pub accepted_spans: usize,
    pub dropped_spans: usize,
}

/// The status a span carries when the SDK sends none.
pub fn default_status() -> (s: String)
    ensures
        s@ == "ok"@,
{
    "ok".to_owned()
}

} // verus!
