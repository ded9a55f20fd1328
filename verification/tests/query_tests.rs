use railspan::auth::{authorize, bearer_token};
use railspan::endpoints::{aggregate_endpoints, percentile, sort_durations, EndpointSample};
use railspan::metrics::{load_tier, window_expired, AgentMetrics, LoadTier, ServerMetrics};
use railspan::query::{
    clamp_limit, default_limit, deploy_cutoff, deploy_id, deploy_time, n1_threshold_floor, resolve_range,
    retention_cutoff, retention_days_used, trace_summary_from_row, traces_query, SqlArg,
};
use railspan::server::{
    agent_response, ingest_response, needs_ui_auth, screen_agent_batch, screen_batch, screen_request, ui_token_of,
    Rejection,
};
use railspan::source::{check_source_path, default_context, source_snippet, SourcePathError};
use railspan::placeholder;
use std::sync::atomic::Ordering;

fn sample(resource: &str, d: i64, err: i64, n1: i64, kind: Option<&str>) -> EndpointSample {
    EndpointSample {
        resource: resource.to_string(),
        duration_ns: d,
        is_error: err,
        has_n_plus_one: n1,
        kind: kind.map(|k| k.to_string()),
    }
}

#[test]
fn placeholder_names_server() {
    assert_eq!(placeholder(), "railspan-server");
}

#[test]
fn percentiles_round_half_up() {
    let v: Vec<i64> = (1..=10).collect();
    assert_eq!(percentile(&v, 50), 6);
    assert_eq!(percentile(&v, 95), 10);
    assert_eq!(percentile(&v, 99), 10);
    assert_eq!(percentile(&vec![], 50), 0);
    assert_eq!(percentile(&vec![42], 99), 42);
    let w: Vec<i64> = (0..21).collect();
    assert_eq!(percentile(&w, 95), 19);
    assert_eq!(percentile(&v, 250), 10);
    assert_eq!(percentile(&v, u64::MAX), 10);
    assert_eq!(percentile(&v, 0), 1);
    assert_eq!(sort_durations(&vec![3, -1, 2, 2]), vec![-1, 2, 2, 3]);
}

#[test]
fn endpoints_grouped_and_slowest_first() {
    let samples = vec![
        sample("A", 100, 0, 1, None),
        sample("B", 900, 1, 0, Some("job")),
        sample("A", 300, 1, 0, Some("http.server")),
        sample("A", 200, 0, 1, Some("ignored")),
        sample("B", 700, 0, 0, None),
    ];
    let rows = aggregate_endpoints(&samples);
    assert_eq!(rows.len(), 2);
    assert_eq!(rows[0].resource, "B");
    assert_eq!(rows[0].count, 2);
    assert_eq!(rows[0].error_count, 1);
    assert_eq!(rows[0].p50_ns, 900);
    assert_eq!(rows[0].kind, "job");
    assert_eq!(rows[1].resource, "A");
    assert_eq!(rows[1].count, 3);
    assert_eq!(rows[1].p50_ns, 200);
    assert_eq!(rows[1].p95_ns, 300);
    assert_eq!(rows[1].total_ns, 600);
    assert_eq!(rows[1].n_plus_one_count, 2);
    assert_eq!(rows[1].kind, "http.server");
    let default_kind = aggregate_endpoints(&vec![sample("C", 1, 0, 0, None)]);
    assert_eq!(default_kind[0].kind, "http.server");
}

#[test]
fn endpoints_ties_keep_first_seen_order() {
    let rows = aggregate_endpoints(&vec![sample("X", 5, 0, 0, None), sample("Y", 5, 0, 0, None)]);
    assert_eq!(rows[0].resource, "X");
    assert_eq!(rows[1].resource, "Y");
}

#[test]
fn api_requires_ui_token() {
    let token = Some("secret".to_string());
    assert!(!authorize(&token, None));
    assert!(authorize(&token, Some("Bearer secret")));
    assert!(!authorize(&token, Some("Bearer other")));
    assert!(!authorize(&token, Some("bearer secret")));
    assert!(authorize(&None, None));
    assert!(authorize(&Some(String::new()), None));
    assert!(needs_ui_auth("/api/v1/stats"));
    assert!(!needs_ui_auth("/healthz"));
    assert!(!needs_ui_auth("/v1/traces"));
}

#[test]
fn ingest_requires_key_when_configured() {
    let key = Some("secret".to_string());
    let ok = authorize(&key, None);
    assert_eq!(screen_request(ok, 10), Err(Rejection::Unauthorized));
}

#[test]
fn ingest_accepts_valid_batch() {
    let key = Some("secret".to_string());
    let ok = authorize(&key, Some("Bearer secret"));
    assert_eq!(screen_request(ok, 300), Ok(()));
    assert_eq!(screen_agent_batch(1), Ok(()));
    let r = agent_response(1);
    assert!(r.ok);
    assert_eq!(r.accepted_spans, 1);
    assert_eq!(r.dropped_spans, 0);
}

#[test]
fn bearer_token_strips_prefix() {
    assert_eq!(bearer_token(Some("Bearer abc")), Some("abc".to_string()));
    assert_eq!(bearer_token(Some("Bearer ")), Some(String::new()));
    assert_eq!(bearer_token(Some("Basic abc")), None);
    assert_eq!(bearer_token(None), None);
}

#[test]
fn rejects_oversized_batch() {
    assert_eq!(screen_batch(1, 5001), Err(Rejection::PayloadTooLarge));
    assert_eq!(screen_batch(1, 5000), Ok(()));
    assert_eq!(screen_batch(2, 1), Err(Rejection::BadRequest));
    assert_eq!(screen_request(true, 16 * 1024 * 1024 + 1), Err(Rejection::PayloadTooLarge));
    assert_eq!(screen_request(true, 16 * 1024 * 1024), Ok(()));
    assert_eq!(screen_agent_batch(3), Err(Rejection::BadRequest));
}

#[test]
fn ingest_response_counts_drops() {
    let r = ingest_response(10, 7);
    assert!(r.ok);
    assert_eq!(r.accepted_spans, 7);
    assert_eq!(r.dropped_spans, 3);
    assert_eq!(ingest_response(2, 5).dropped_spans, 0);
}

#[test]
fn ui_token_falls_back_to_api_key() {
    assert_eq!(ui_token_of(None, Some("k".into())), Some("k".to_string()));
    assert_eq!(ui_token_of(Some("u".into()), Some("k".into())), Some("u".to_string()));
    assert_eq!(ui_token_of(Some(String::new()), Some("k".into())), Some("k".to_string()));
    assert_eq!(ui_token_of(Some(String::new()), Some(String::new())), None);
    assert_eq!(ui_token_of(Some(String::new()), None), None);
    assert_eq!(ui_token_of(None, None), None);
}

#[test]
fn source_snippet_from_root() {
    assert_eq!(default_context(), 5);
    let rel = check_source_path("app/controllers/users_controller.rb").unwrap();
    assert_eq!(rel, "app/controllers/users_controller.rb");
    let content = "class UsersController\n  def with_posts\n    User.all\n  end\nend\n";
    let lines: Vec<String> = content.lines().map(|l| l.to_string()).collect();
    let s = source_snippet(&lines, Some(2), 1);
    assert_eq!(s.line, Some(2));
    assert!(s.lines.len() >= 2);
    assert_eq!(s.start_line, 1);
    assert_eq!(s.lines, vec!["class UsersController", "  def with_posts", "    User.all"]);
    assert_eq!(check_source_path("../../etc/passwd"), Err(SourcePathError::ParentTraversal));
}

#[test]
fn source_paths_checked() {
    assert_eq!(check_source_path("  //app/models/user.rb \n"), Ok("app/models/user.rb".to_string()));
    assert_eq!(check_source_path("   "), Err(SourcePathError::Empty));
    assert_eq!(check_source_path("/"), Err(SourcePathError::Empty));
    assert_eq!(check_source_path("a\0b.rb"), Err(SourcePathError::Nul));
    assert_eq!(check_source_path("app/../x.rb"), Err(SourcePathError::ParentTraversal));
    assert_eq!(check_source_path("app/..x.rb"), Ok("app/..x.rb".to_string()));
    assert_eq!(check_source_path("notes.txt"), Err(SourcePathError::Extension));
    assert_eq!(check_source_path(".rb"), Err(SourcePathError::Extension));
    assert_eq!(check_source_path("lib/tasks/x.rake/"), Ok("lib/tasks/x.rake/".to_string()));
    assert_eq!(check_source_path("views/a.json.jbuilder"), Ok("views/a.json.jbuilder".to_string()));
    assert_eq!(check_source_path("config.ru/."), Ok("config.ru/.".to_string()));
    assert_eq!(check_source_path("x."), Err(SourcePathError::Extension));
}

#[test]
fn snippet_clamps_focus_and_context() {
    let lines: Vec<String> = (1..=50).map(|i| format!("l{i}")).collect();
    let s = source_snippet(&lines, Some(100), 30);
    assert_eq!(s.line, Some(50));
    assert_eq!(s.start_line, 30);
    assert_eq!(s.lines.len(), 21);
    let t = source_snippet(&lines, None, 0);
    assert_eq!(t.line, Some(1));
    assert_eq!(t.lines, vec!["l1"]);
    let empty = source_snippet(&Vec::new(), Some(4), 5);
    assert_eq!(empty.line, Some(4));
    assert_eq!(empty.start_line, 1);
    assert!(empty.lines.is_empty());
}

#[test]
fn ranges_and_limits() {
    assert_eq!(resolve_range(Some(1), Some(2), 100, 10), (1, 2));
    assert_eq!(resolve_range(None, None, 100, 10), (90, 100));
    assert_eq!(resolve_range(None, Some(50), 100, 10), (40, 50));
    assert_eq!(resolve_range(None, Some(i64::MIN + 1), 0, 10), (i64::MIN, i64::MIN + 1));
    assert_eq!(default_limit(), 50);
    assert_eq!(clamp_limit(0), 1);
    assert_eq!(clamp_limit(10_000), 500);
    assert_eq!(clamp_limit(20), 20);
}

#[test]
fn trace_query_text_and_args() {
    let (sql, args) = traces_query(1, 2, &Some("R".into()), true, false, Some(5), &None, 50);
    assert!(sql.contains(" AND t.root_resource = ? "));
    assert!(sql.contains(" AND t.is_error = 1 "));
    assert!(!sql.contains("has_n_plus_one = 1"));
    assert!(sql.contains(" AND t.duration_ns >= ? "));
    assert!(!sql.contains("root_kind = ?"));
    assert!(sql.ends_with(" GROUP BY t.trace_id ORDER BY t.start_time_ns DESC LIMIT ? "));
    assert_eq!(args, vec![SqlArg::Int(1), SqlArg::Int(2), SqlArg::Text("R".into()), SqlArg::Int(5), SqlArg::Int(50)]);
    assert_eq!(sql.matches('?').count(), args.len());
}

#[test]
fn deploy_and_retain() {
    assert_eq!(deploy_id(255), "dep_00000000000000ff");
    assert_eq!(deploy_time(Some(100), 5), 100);
    assert_eq!(deploy_time(None, 5), 5);
    assert_eq!(retention_days_used(0), 1);
    assert_eq!(retention_cutoff(10 * 86_400_000_000_000, 7), 3 * 86_400_000_000_000);
    assert_eq!(retention_cutoff(86_400_000_000_000, 0), 0);
    assert_eq!(deploy_cutoff(10_000), 10_000 - 7_776_000_000_000_000);
    assert_eq!(deploy_cutoff(i64::MIN + 5), i64::MIN);
    assert_eq!(n1_threshold_floor(0), 2);
    assert_eq!(n1_threshold_floor(5), 5);
}

#[test]
fn summary_from_row_reads_flags() {
    let t = trace_summary_from_row("t".into(), None, 5, 2, Some(200), 1, 3, None, Some("job".into()));
    assert!(t.is_error);
    assert!(!t.has_n_plus_one);
    let u = trace_summary_from_row("t".into(), None, 5, 0, None, 1, 3, Some(1), None);
    assert!(!u.is_error);
    assert!(u.has_n_plus_one);
}

#[test]
fn load_tiers_and_window() {
    assert_eq!(load_tier(0), LoadTier::Normal);
    assert_eq!(load_tier(20_000), LoadTier::Soft);
    assert_eq!(load_tier(50_000), LoadTier::Hard);
    assert_eq!(load_tier(100_000), LoadTier::Critical);
    assert!(window_expired(160, 100));
    assert!(!window_expired(159, 100));
    assert!(!window_expired(10, 100));
    let m = ServerMetrics::new(100);
    m.record_load_at(110, 5);
    m.record_load_at(120, 7);
    assert_eq!(m.window_spans.load(Ordering::Relaxed), 12);
    m.record_load_at(200, 3);
    assert_eq!(m.window_spans.load(Ordering::Relaxed), 3);
    assert_eq!(m.window_start_secs.load(Ordering::Relaxed), 200);
    let a = AgentMetrics::default();
    a.record_batch(4);
    assert_eq!(a.spans_accepted.load(Ordering::Relaxed), 4);
    assert_eq!(a.batches_received.load(Ordering::Relaxed), 1);
}
