use railspan::ingest::{
    detect_n_plus_one, indices_for, n1_event_id, plan_ingest, select_root, trace_ids,
};
use railspan::protocol::{AttrValue, Attribute, SdkInfo, Span, TraceBatch};
use railspan::text::{simple_hash, u64_to_decimal};

fn span(trace: &str, id: &str, parent: Option<&str>, kind: &str, resource: Option<&str>, start: u64, end: u64) -> Span {
    Span {
        trace_id: trace.to_string(),
        span_id: id.to_string(),
        parent_span_id: parent.map(|p| p.to_string()),
        name: kind.to_string(),
        kind: kind.to_string(),
        resource: resource.map(|r| r.to_string()),
        start_time_unix_ns: start,
        end_time_unix_ns: end,
        status: "ok".to_string(),
        attributes: Vec::new(),
        events: Vec::new(),
    }
}

fn n1_batch() -> TraceBatch {
    let mut root = span("t1", "root", None, "http.server", Some("UsersController#with_posts"), 1_000, 50_000);
    root.attributes.push(Attribute { key: "http.status_code".to_string(), value: AttrValue::Int(200) });
    let mut spans = vec![root];
    for i in 0..6u64 {
        spans.push(span(
            "t1",
            &format!("sql{i}"),
            Some("root"),
            "sql",
            Some("SELECT posts WHERE user_id = ?"),
            2_000 + i * 100,
            2_050 + i * 100,
        ));
    }
    TraceBatch {
        protocol_version: 1,
        sdk: SdkInfo { name: "test".into(), version: "0".into(), language: "ruby".into(), runtime: None },
        resource: vec![Attribute { key: "service.name".to_string(), value: AttrValue::Str("shop".to_string()) }],
        spans,
    }
}

#[test]
fn detects_n_plus_one() {
    let b = n1_batch();
    let plans = plan_ingest(&b, 5, 777);
    assert_eq!(plans.len(), 1);
    let p = &plans[0];
    assert_eq!(p.n_plus_one.len(), 1);
    let ev = &p.n_plus_one[0];
    assert!(ev.repeat_count >= 5);
    assert_eq!(ev.repeat_count, 6);
    assert_eq!(ev.total_duration_ns, 300);
    assert_eq!(ev.sql_fingerprint, "SELECT posts WHERE user_id = ?");
    assert_eq!(ev.root_resource.as_deref(), Some("UsersController#with_posts"));
    assert_eq!(ev.detected_at_ns, 777);
    assert_eq!(ev.id, format!("n1_t1_{}", simple_hash("SELECT posts WHERE user_id = ?")));
    assert!(p.trace.has_n_plus_one);
    assert_eq!(p.trace.status_code, Some(200));
    assert_eq!(p.trace.duration_ns, 49_000);
    assert_eq!(p.trace.start_time_ns, 1_000);
    assert_eq!(p.trace.service.as_deref(), Some("shop"));
    assert_eq!(p.trace.root_kind.as_deref(), Some("http.server"));
    assert!(!p.trace.is_error);
    assert_eq!(p.trace.received_at_ns, 777);
    assert_eq!(p.spans.len(), 7);
    assert_eq!(p.spans[1].span_index, 1);
    assert_eq!(p.spans[1].duration_ns, 50);
}

#[test]
fn below_threshold_is_not_flagged() {
    let b = n1_batch();
    let plans = plan_ingest(&b, 7, 0);
    assert_eq!(plans[0].n_plus_one.len(), 0);
    assert!(!plans[0].trace.has_n_plus_one);
}

#[test]
fn fingerprint_falls_back_to_statement_then_name() {
    let mut spans = Vec::new();
    for i in 0..3 {
        let mut s = span("t", &format!("a{i}"), Some("r"), "sql", None, 0, 10);
        s.attributes.push(Attribute { key: "db.statement".into(), value: AttrValue::Str("SELECT 1".into()) });
        spans.push(s);
    }
    for i in 0..2 {
        let mut s = span("t", &format!("b{i}"), Some("r"), "sql", None, 0, 10);
        s.name = "named".into();
        spans.push(s);
    }
    let idx: Vec<usize> = (0..spans.len()).collect();
    let events = detect_n_plus_one(&"t".to_string(), &None, &spans, &idx, 2, 5);
    assert_eq!(events.len(), 2);
    assert_eq!(events[0].sql_fingerprint, "SELECT 1");
    assert_eq!(events[0].repeat_count, 3);
    assert_eq!(events[1].sql_fingerprint, "named");
    assert_eq!(events[1].repeat_count, 2);
    assert_eq!(events[1].total_duration_ns, 20);
}

#[test]
fn root_selection_fallbacks() {
    let spans = vec![
        span("t", "a", Some("p"), "sql", None, 0, 100),
        span("t", "b", Some("p"), "job", None, 0, 10),
        span("t", "c", None, "view", None, 0, 1),
    ];
    let all: Vec<usize> = vec![0, 1, 2];
    assert_eq!(select_root(&spans, &all), Some(2));
    let no_orphan: Vec<usize> = vec![0, 1];
    assert_eq!(select_root(&spans, &no_orphan), Some(1));
    assert_eq!(select_root(&spans, &Vec::new()), None);
    let longest = vec![
        span("t", "a", Some("p"), "sql", None, 0, 100),
        span("t", "b", Some("p"), "sql", None, 0, 100),
        span("t", "c", Some("p"), "sql", None, 0, 50),
    ];
    assert_eq!(select_root(&longest, &vec![0, 1, 2]), Some(1));
}

#[test]
fn traces_grouped_in_order_of_first_appearance() {
    let spans = vec![
        span("b", "1", None, "http.server", None, 5, 9),
        span("a", "2", None, "http.server", None, 1, 2),
        span("b", "3", Some("1"), "sql", None, 6, 7),
    ];
    let ids = trace_ids(&spans);
    assert_eq!(ids, vec!["b".to_string(), "a".to_string()]);
    assert_eq!(indices_for(&spans, &"b".to_string()), vec![0, 2]);
    let b = TraceBatch { protocol_version: 1, sdk: SdkInfo::default(), resource: Vec::new(), spans };
    let plans = plan_ingest(&b, 5, 0);
    assert_eq!(plans.len(), 2);
    assert_eq!(plans[0].trace.trace_id, "b");
    assert_eq!(plans[0].spans.len(), 2);
    assert_eq!(plans[1].spans.len(), 1);
    let total: usize = plans.iter().map(|p| p.spans.len()).sum();
    assert_eq!(total, 3);
    assert!(plans[0].trace.service.is_none());
}

#[test]
fn error_anywhere_marks_trace() {
    let mut spans = vec![span("t", "1", None, "http.server", None, 0, 9), span("t", "2", Some("1"), "sql", None, 1, 2)];
    spans[1].status = "error".into();
    let b = TraceBatch { protocol_version: 1, sdk: SdkInfo::default(), resource: Vec::new(), spans };
    assert!(plan_ingest(&b, 5, 0)[0].trace.is_error);
}

#[test]
fn span_records_truncate_fields() {
    let mut s = span("t", "1", None, "k", Some(&"r".repeat(2000)), 10, 5);
    s.name = "n".repeat(300);
    s.resource = Some("r".repeat(2000));
    let b = TraceBatch { protocol_version: 1, sdk: SdkInfo::default(), resource: Vec::new(), spans: vec![s] };
    let p = &plan_ingest(&b, 5, 0)[0];
    assert_eq!(p.spans[0].name.len(), 256);
    assert_eq!(p.spans[0].resource.as_ref().unwrap().len(), 1024);
    assert_eq!(p.trace.root_resource.as_ref().unwrap().len(), 512);
    assert_eq!(p.spans[0].duration_ns, 0);
}

#[test]
fn event_id_cuts_trace_id_to_twelve_bytes() {
    let id = n1_event_id("0123456789abcdef", "q");
    assert_eq!(id, format!("n1_0123456789ab_{}", u64_to_decimal(simple_hash("q"))));
    let h = u64_to_decimal(simple_hash("q"));
    assert_eq!(n1_event_id("short", "q"), format!("n1_short_{h}"));
    assert_eq!(n1_event_id("0123456789aé", "q"), format!("n1_0123456789a_{h}"));
    assert_eq!(n1_event_id("aéééééé", "q"), format!("n1_aééééé_{h}"));
}

#[test]
fn multibyte_trace_id_is_cut_on_a_char_boundary() {
    let mut spans = Vec::new();
    for i in 0..5 {
        spans.push(span("0123456789aé-trace", &format!("s{i}"), Some("r"), "sql", Some("SELECT 1"), 0, 1));
    }
    let b = TraceBatch { protocol_version: 1, sdk: SdkInfo::default(), resource: Vec::new(), spans };
    let plans = plan_ingest(&b, 5, 0);
    assert_eq!(plans.len(), 1);
    assert_eq!(plans[0].n_plus_one.len(), 1);
    let h = u64_to_decimal(simple_hash("SELECT 1"));
    assert_eq!(plans[0].n_plus_one[0].id, format!("n1_0123456789a_{h}"));
    assert!(plans[0].trace.has_n_plus_one);
    assert!(plan_ingest(&b, 6, 0)[0].n_plus_one.is_empty());
}

#[test]
fn n1_event_inherits_first_location() {
    let mut spans = Vec::new();
    for i in 0..3 {
        let mut s = span("t", &format!("q{i}"), Some("r"), "sql", Some("SELECT ?"), 0, 1);
        if i >= 1 {
            s.attributes.push(Attribute { key: "code.filepath".into(), value: AttrValue::Str(format!("app/f{i}.rb")) });
            s.attributes.push(Attribute { key: "code.lineno".into(), value: AttrValue::Int(10 + i as i64) });
            s.attributes.push(Attribute { key: "code.function".into(), value: AttrValue::Str("with_posts".into()) });
        }
        spans.push(s);
    }
    spans[1].attributes[0].value = AttrValue::Str(String::new());
    let idx: Vec<usize> = vec![0, 1, 2];
    let events = detect_n_plus_one(&"t".to_string(), &None, &spans, &idx, 3, 0);
    assert_eq!(events.len(), 1);
    assert_eq!(events[0].code_filepath.as_deref(), Some("app/f2.rb"));
    assert_eq!(events[0].code_lineno, Some(12));
    assert_eq!(events[0].code_function.as_deref(), Some("with_posts"));
    let plain = vec![span("t", "a", None, "sql", Some("S"), 0, 1), span("t", "b", None, "sql", Some("S"), 0, 1)];
    let ev = detect_n_plus_one(&"t".to_string(), &None, &plain, &vec![0, 1], 2, 0);
    assert!(ev[0].code_filepath.is_none());
    assert!(ev[0].code_lineno.is_none());
    assert!(ev[0].code_function.is_none());
    let mut no_file = plain.clone();
    for s in no_file.iter_mut() {
        s.attributes.push(Attribute { key: "code.lineno".into(), value: AttrValue::Int(7) });
        s.attributes.push(Attribute { key: "code.function".into(), value: AttrValue::Str("f".into()) });
    }
    let ev = detect_n_plus_one(&"t".to_string(), &None, &no_file, &vec![0, 1], 2, 0);
    assert!(ev[0].code_filepath.is_none());
    assert!(ev[0].code_lineno.is_none());
    assert!(ev[0].code_function.is_none());
}

#[test]
fn replanning_keeps_row_ids() {
    let b = n1_batch();
    let first = plan_ingest(&b, 5, 100);
    let second = plan_ingest(&b, 5, 900);
    assert_eq!(first.len(), second.len());
    assert_eq!(first[0].trace.trace_id, second[0].trace.trace_id);
    assert_eq!(first[0].trace.received_at_ns, 100);
    assert_eq!(second[0].trace.received_at_ns, 900);
    let ids1: Vec<&String> = first[0].spans.iter().map(|r| &r.span_id).collect();
    let ids2: Vec<&String> = second[0].spans.iter().map(|r| &r.span_id).collect();
    assert_eq!(ids1, ids2);
    assert_eq!(first[0].n_plus_one[0].id, second[0].n_plus_one[0].id);
    assert_eq!(first[0].n_plus_one[0].repeat_count, second[0].n_plus_one[0].repeat_count);
    assert_eq!(second[0].n_plus_one[0].detected_at_ns, 900);
}
