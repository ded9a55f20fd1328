use railspan::protocol::{default_status, find_attr, AttrValue, Attribute, SdkInfo, Span, SpanEvent, TraceBatch};
use railspan::sampling::{filter_noise, sample_batch, sample_bucket, SAMPLE_BUCKETS};
use railspan::sanitize::{sanitize_batch, sanitize_span, MAX_SPANS_PER_BATCH};
use railspan::server::ingest_pipeline;
use railspan::text::simple_hash;

fn span(trace: &str, id: &str, parent: Option<&str>, kind: &str, resource: Option<&str>, start: u64, end: u64, status: &str) -> Span {
    Span {
        trace_id: trace.to_string(),
        span_id: id.to_string(),
        parent_span_id: parent.map(|p| p.to_string()),
        name: kind.to_string(),
        kind: kind.to_string(),
        resource: resource.map(|r| r.to_string()),
        start_time_unix_ns: start,
        end_time_unix_ns: end,
        status: status.to_string(),
        attributes: Vec::new(),
        events: Vec::new(),
    }
}

fn batch(spans: Vec<Span>) -> TraceBatch {
    TraceBatch { protocol_version: 1, sdk: SdkInfo::default(), resource: Vec::new(), spans }
}

fn attr(key: &str, value: AttrValue) -> Attribute {
    Attribute { key: key.to_string(), value }
}

#[test]
fn default_status_is_ok() {
    assert_eq!(default_status(), "ok");
    let sdk = SdkInfo::default();
    assert_eq!(sdk.name, "");
    assert!(sdk.runtime.is_none());
}

#[test]
fn find_attr_takes_first_key() {
    let attrs = vec![attr("a", AttrValue::Int(1)), attr("b", AttrValue::Int(2)), attr("a", AttrValue::Int(3))];
    assert_eq!(find_attr(&attrs, "a"), Some(0));
    assert_eq!(find_attr(&attrs, "b"), Some(1));
    assert_eq!(find_attr(&attrs, "c"), None);
}

#[test]
fn sanitize_caps_text_fields() {
    let mut s = span("t", "s", None, "k", Some("r"), 1, 2, "ok");
    s.name = "é".repeat(300);
    s.kind = "x".repeat(70);
    s.resource = Some("y".repeat(2000));
    let out = sanitize_span(s);
    assert_eq!(out.name.chars().count(), 256);
    assert_eq!(out.kind.len(), 64);
    assert_eq!(out.resource.unwrap().len(), 1024);
}

#[test]
fn sanitize_caps_attributes_and_events() {
    let mut s = span("t", "s", None, "k", None, 1, 2, "ok");
    for i in 0..70 {
        s.attributes.push(attr(&format!("k{i}"), AttrValue::Str("v".repeat(3000))));
    }
    s.attributes[0].value = AttrValue::Other("[1,2]".to_string());
    for i in 0..20 {
        s.events.push(SpanEvent {
            time_unix_ns: i,
            name: "n".repeat(200),
            attributes: (0..70).map(|j| attr(&format!("e{j}"), AttrValue::Str("w".repeat(3000)))).collect(),
        });
    }
    let out = sanitize_span(s);
    assert_eq!(out.attributes.len(), 64);
    assert_eq!(out.attributes[0].value, AttrValue::Other("[1,2]".to_string()));
    assert_eq!(out.attributes[1].key, "k1");
    assert_eq!(out.attributes[1].value, AttrValue::Str("v".repeat(2048)));
    assert_eq!(out.attributes[63].key, "k63");
    assert_eq!(out.events.len(), 16);
    assert_eq!(out.events[15].time_unix_ns, 15);
    assert_eq!(out.events[0].name.len(), 128);
    assert_eq!(out.events[0].attributes.len(), 64);
    // event attribute values are not capped
    assert_eq!(out.events[0].attributes[0].value, AttrValue::Str("w".repeat(3000)));
}

#[test]
fn sanitize_cuts_oversized_batch() {
    let spans: Vec<Span> = (0..MAX_SPANS_PER_BATCH + 7).map(|i| span("t", &format!("s{i}"), None, "k", None, 1, 2, "ok")).collect();
    let (out, dropped) = sanitize_batch(batch(spans));
    assert_eq!(out.spans.len(), MAX_SPANS_PER_BATCH);
    assert_eq!(dropped, 7);
    assert_eq!(out.spans[MAX_SPANS_PER_BATCH - 1].span_id, format!("s{}", MAX_SPANS_PER_BATCH - 1));
}

#[test]
fn sanitize_is_idempotent_on_example() {
    let mut s = span("t", "s", None, "k", Some(&"r".repeat(1500)), 1, 2, "ok");
    s.name = "n".repeat(400);
    let (once, d1) = sanitize_batch(batch(vec![s]));
    let (twice, d2) = sanitize_batch(once.clone());
    assert_eq!(d1, 0);
    assert_eq!(d2, 0);
    assert_eq!(once, twice);
}

#[test]
fn sample_bucket_is_fnv_mod_buckets() {
    assert_eq!(sample_bucket(""), 6037);
    assert_eq!(sample_bucket("abc"), simple_hash("abc") % SAMPLE_BUCKETS);
    assert!(sample_bucket("anything") < SAMPLE_BUCKETS);
}

#[test]
fn sampling_full_rate_keeps_everything() {
    let b = batch(vec![
        span("a", "1", None, "http.server", None, 0, 10, "ok"),
        span("b", "2", None, "http.server", None, 0, 10, "ok"),
        span("a", "3", Some("1"), "sql", None, 1, 2, "ok"),
    ]);
    let (out, dropped) = sample_batch(b.clone(), SAMPLE_BUCKETS, 500);
    assert_eq!(dropped, 0);
    assert_eq!(out, b);
}

#[test]
fn sampling_keeps_errors_and_slow_traces_whole() {
    let b = batch(vec![
        span("err", "1", None, "http.server", None, 0, 10, "ok"),
        span("fast", "2", None, "http.server", None, 0, 10, "ok"),
        span("err", "3", Some("1"), "sql", None, 1, 2, "error"),
        span("slow", "4", None, "http.server", None, 0, 600_000_000, "ok"),
        span("slow", "5", Some("4"), "sql", None, 1, 2, "ok"),
        span("fast", "6", Some("2"), "sql", None, 1, 2, "ok"),
    ]);
    let (out, dropped) = sample_batch(b, 0, 500);
    let ids: Vec<&str> = out.spans.iter().map(|s| s.span_id.as_str()).collect();
    assert_eq!(ids, vec!["1", "3", "4", "5"]);
    assert_eq!(dropped, 2);
}

#[test]
fn sampling_threshold_decides_by_trace_hash() {
    let tid = "some-trace";
    let bucket = sample_bucket(tid);
    let b = batch(vec![span(tid, "1", None, "http.server", None, 0, 10, "ok")]);
    let (kept, _) = sample_batch(b.clone(), bucket + 1, 500);
    assert_eq!(kept.spans.len(), 1);
    let (dropped_all, d) = sample_batch(b, bucket, 500);
    assert_eq!(dropped_all.spans.len(), 0);
    assert_eq!(d, 1);
}

#[test]
fn sampling_without_root_hashes_empty_seed() {
    // a trace without a parentless span is decided by the bucket of the empty text
    let b = batch(vec![span("x", "1", Some("p"), "sql", None, 0, 10, "ok")]);
    let (kept, _) = sample_batch(b.clone(), sample_bucket("") + 1, 500);
    assert_eq!(kept.spans.len(), 1);
    let (gone, _) = sample_batch(b, sample_bucket(""), 500);
    assert_eq!(gone.spans.len(), 0);
}

#[test]
fn filter_noise_drops_health_traces() {
    let b = batch(vec![
        span("h", "1", None, "http.server", Some("HealthController#show"), 0, 10, "ok"),
        span("u", "2", None, "http.server", Some("UsersController#index"), 0, 10, "ok"),
        span("h", "3", Some("1"), "sql", Some("SELECT 1"), 1, 2, "ok"),
        span("v", "4", Some("x"), "sql", Some("HealthController#show"), 1, 2, "ok"),
    ]);
    let out = filter_noise(b);
    let ids: Vec<&str> = out.spans.iter().map(|s| s.span_id.as_str()).collect();
    assert_eq!(ids, vec!["2", "4"]);
    let again = filter_noise(out.clone());
    assert_eq!(again, out);
}

#[test]
fn pipeline_caps_samples_then_filters() {
    let spans = vec![
        span("e", "e1", None, "http.server", Some("A#b"), 0, 10, "error"),
        span("e", "e2", Some("e1"), "sql", None, 1, 2, "ok"),
        span("h", "h1", None, "http.server", Some("HealthController#show"), 0, 10, "ok"),
        span("h", "h2", Some("h1"), "sql", None, 1, 2, "ok"),
        span("s", "s1", None, "http.server", Some("A#c"), 0, 10, "ok"),
    ];
    let (out, card, sampled) = ingest_pipeline(batch(spans.clone()), Some(0), 1_000);
    assert_eq!(card, 0);
    assert_eq!(sampled, 3);
    let ids: Vec<&str> = out.spans.iter().map(|s| s.span_id.as_str()).collect();
    assert_eq!(ids, vec!["e1", "e2"]);
    let (out, card, sampled) = ingest_pipeline(batch(spans), None, 1_000);
    assert_eq!((card, sampled), (0, 0));
    let ids: Vec<&str> = out.spans.iter().map(|s| s.span_id.as_str()).collect();
    assert_eq!(ids, vec!["e1", "e2", "s1"]);
    let many: Vec<Span> =
        (0..MAX_SPANS_PER_BATCH + 1).map(|i| span("x", &format!("x{i}"), None, "job", None, 0, 1, "error")).collect();
    let (out, card, sampled) = ingest_pipeline(batch(many), Some(0), 1_000);
    assert_eq!(card, 1);
    assert_eq!(sampled, 0);
    assert_eq!(out.spans.len(), MAX_SPANS_PER_BATCH);
}
