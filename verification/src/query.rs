//! Query-side decisions: time ranges, limits, the trace-list query, retention
//! cutoffs, deploy markers and stored trace summaries.

use vstd::prelude::*;
use crate::protocol::opt_view;
use crate::clock::now_ns;
use crate::text::{hex16, hex_width};
use vstd::string::*;

verus! {

/// The time range a query covers: `to` defaults to now, `from` to `to` minus
/// the window (saturating).
pub open spec fn range_of(from_ns: Option<i64>, to_ns: Option<i64>, now_ns: i64, window_ns: i64) -> (i64, i64) {
    let to = match to_ns {
        Some(t) => t,
        None => now_ns,
    };
    let lo = to as int - window_ns as int;
    let from = match from_ns {
        Some(f) => f,
        None => if lo < i64::MIN {
            i64::MIN
        } else if lo > i64::MAX {
            i64::MAX
        } else {
            lo as i64
        },
    };
    (from, to)
}

/// Resolve a query's time range; `window_ns` is the look-back window in nanoseconds.
pub fn resolve_range(from_ns: Option<i64>, to_ns: Option<i64>, now_ns: i64, window_ns: i64) -> (r: (i64, i64))
    ensures
        r == range_of(from_ns, to_ns, now_ns, window_ns),
{
    let to = match to_ns {
        Some(t) => t,
        None => now_ns,
    };
    let from = match from_ns {
        Some(f) => f,
        None => {
            let lo: i128 = to as i128 - window_ns as i128;
            if lo < i64::MIN as i128 {
                i64::MIN
            } else if lo > i64::MAX as i128 {
                i64::MAX
            } else {
                lo as i64
            }
        },
    };
    (from, to)
}

/// Number of traces listed when the query gives no limit.
pub fn default_limit() -> (l: i64)
    ensures
        l == 50,
{
    50
}

/// The limit used for a trace list: the requested one, clamped to 1..=500.
pub fn clamp_limit(limit: i64) -> (l: i64)
    ensures
        l == if limit < 1 {
            1
        } else if limit > 500 {
            500
        } else {
            limit
        },
{
    if limit < 1 {
        1
    } else if limit > 500 {
        500
    } else {
        limit
    }
}

/// A value bound to a `?` of a SQL statement.
#[derive(Debug, Clone, PartialEq, Eq)]
pub enum SqlArg {
    Int(i64),
    Text(String),
}

pub enum SqlArgView {
    Int(i64),
    Text(Seq<char>),
}

impl View for SqlArg {
    type V = SqlArgView;

    open spec fn view(&self) -> SqlArgView {
        match self {
            SqlArg::Int(i) => SqlArgView::Int(*i),
            SqlArg::Text(t) => SqlArgView::Text(t@),
        }
    }
}

pub open spec fn when<A>(c: bool, s: Seq<A>) -> Seq<A> {
    if c {
        s
    } else {
        Seq::empty()
    }
}

pub open spec fn traces_select() -> Seq<char> {
    "SELECT t.trace_id, t.root_resource, t.duration_ns, t.is_error, t.status_code, t.start_time_ns, t.has_n_plus_one, t.root_kind, COUNT(s.span_id) as span_count FROM traces t LEFT JOIN spans s ON s.trace_id = t.trace_id WHERE t.start_time_ns >= ? AND t.start_time_ns <= ? "@
}

/// The statement listing traces: the base query, one condition per filter
/// given, then grouping, newest first, and the limit.
pub open spec fn traces_sql(
    has_resource: bool,
    errors_only: bool,
    n1_only: bool,
    has_min: bool,
    has_kind: bool,
) -> Seq<char> {
    traces_select() + when(has_resource, " AND t.root_resource = ? "@) + when(errors_only, " AND t.is_error = 1 "@)
        + when(n1_only, " AND t.has_n_plus_one = 1 "@) + when(has_min, " AND t.duration_ns >= ? "@) + when(
        has_kind,
        " AND t.root_kind = ? "@,
    ) + " GROUP BY t.trace_id ORDER BY t.start_time_ns DESC LIMIT ? "@
}

/// The values bound to the statement, in the order of its `?`.
pub open spec fn traces_args(
    from_ns: i64,
    to_ns: i64,
    resource: Option<Seq<char>>,
    min_duration_ns: Option<i64>,
    kind: Option<Seq<char>>,
    limit: i64,
) -> Seq<SqlArgView> {
    seq![SqlArgView::Int(from_ns), SqlArgView::Int(to_ns)] + match resource {
        Some(r) => seq![SqlArgView::Text(r)],
        None => Seq::empty(),
    } + match min_duration_ns {
        Some(m) => seq![SqlArgView::Int(m)],
        None => Seq::empty(),
    } + match kind {
        Some(k) => seq![SqlArgView::Text(k)],
        None => Seq::empty(),
    } + seq![SqlArgView::Int(limit)]
}

/// Build the trace-list statement and its bound values for the given filters.
pub fn traces_query(
    from_ns: i64,
    to_ns: i64,
    resource: &Option<String>,
    errors_only: bool,
    n1_only: bool,
    min_duration_ns: Option<i64>,
    kind: &Option<String>,
    limit: i64,
) -> (q: (String, Vec<SqlArg>))
    ensures
        q.0@ == traces_sql(resource is Some, errors_only, n1_only, min_duration_ns is Some, kind is Some),
        q.1@.map_values(|a: SqlArg| a@) == traces_args(
            from_ns,
            to_ns,
            opt_view(*resource),
            min_duration_ns,
            opt_view(*kind),
            limit,
        ),
{
    let mut sql = String::new();
    sql.append("SELECT t.trace_id, t.root_resource, t.duration_ns, t.is_error, t.status_code, t.start_time_ns, t.has_n_plus_one, t.root_kind, COUNT(s.span_id) as span_count FROM traces t LEFT JOIN spans s ON s.trace_id = t.trace_id WHERE t.start_time_ns >= ? AND t.start_time_ns <= ? ");
    let ghost s0 = sql@;
    assert(s0 =~= traces_select());
    if resource.is_some() {
        sql.append(" AND t.root_resource = ? ");
    }
    let ghost s1 = sql@;
    assert(s1 =~= s0 + when(resource is Some, " AND t.root_resource = ? "@));
    if errors_only {
        sql.append(" AND t.is_error = 1 ");
    }
    let ghost s2 = sql@;
    assert(s2 =~= s1 + when(errors_only, " AND t.is_error = 1 "@));
    if n1_only {
        sql.append(" AND t.has_n_plus_one = 1 ");
    }
    let ghost s3 = sql@;
    assert(s3 =~= s2 + when(n1_only, " AND t.has_n_plus_one = 1 "@));
    if min_duration_ns.is_some() {
        sql.append(" AND t.duration_ns >= ? ");
    }
    let ghost s4 = sql@;
    assert(s4 =~= s3 + when(min_duration_ns is Some, " AND t.duration_ns >= ? "@));
    if kind.is_some() {
        sql.append(" AND t.root_kind = ? ");
    }
    let ghost s5 = sql@;
    assert(s5 =~= s4 + when(kind is Some, " AND t.root_kind = ? "@));
    sql.append(" GROUP BY t.trace_id ORDER BY t.start_time_ns DESC LIMIT ? ");
    let mut args: Vec<SqlArg> = Vec::new();
    args.push(SqlArg::Int(from_ns));
    args.push(SqlArg::Int(to_ns));
    let ghost a0 = args@.map_values(|a: SqlArg| a@);
    assert(a0 =~= seq![SqlArgView::Int(from_ns), SqlArgView::Int(to_ns)]);
    if let Some(r) = resource {
        args.push(SqlArg::Text(r.clone()));
    }
    let ghost a1 = args@.map_values(|a: SqlArg| a@);
    assert(a1 =~= a0 + match opt_view(*resource) {
        Some(r) => seq![SqlArgView::Text(r)],
        None => Seq::<SqlArgView>::empty(),
    });
    if let Some(m) = min_duration_ns {
        args.push(SqlArg::Int(m));
    }
    let ghost a2 = args@.map_values(|a: SqlArg| a@);
    assert(a2 =~= a1 + match min_duration_ns {
        Some(m) => seq![SqlArgView::Int(m)],
        None => Seq::<SqlArgView>::empty(),
    });
    if let Some(k) = kind {
        args.push(SqlArg::Text(k.clone()));
    }
    let ghost a3 = args@.map_values(|a: SqlArg| a@);
    assert(a3 =~= a2 + match opt_view(*kind) {
        Some(k) => seq![SqlArgView::Text(k)],
        None => Seq::<SqlArgView>::empty(),
    });
    args.push(SqlArg::Int(limit));
    assert(args@.map_values(|a: SqlArg| a@) =~= a3 + seq![SqlArgView::Int(limit)]);
    (sql, args)
}

/// Nanoseconds in a day.
pub const NS_PER_DAY: i64 = 86_400_000_000_000;

/// Largest retention, in days, whose span in nanoseconds fits an `i64`.
pub const MAX_RETENTION_DAYS: u64 = 106_751;

/// How long deploy markers outlive the trace cutoff: ninety days.
pub const DEPLOY_GRACE_NS: i64 = 7_776_000_000_000_000;

/// Days of retention used: the configured number, at least one.
pub fn retention_days_used(days: u64) -> (d: u64)
    ensures
        d == if days < 1 { 1 } else { days },
{
    if days < 1 {
        1
    } else {
        days
    }
}

/// Start times older than this are deleted by the retention pass.
pub fn retention_cutoff(now_ns: i64, retention_days: u64) -> (c: i64)
    requires
        retention_days <= MAX_RETENTION_DAYS,
        now_ns >= 0,
    ensures
        c == now_ns - (if retention_days < 1 { 1 } else { retention_days }) * NS_PER_DAY,
{
    let d = retention_days_used(retention_days);
    now_ns - (d as i64) * NS_PER_DAY
}

/// Deploy markers older than this are deleted: the trace cutoff minus ninety days, saturating.
pub fn deploy_cutoff(traces_older_than_ns: i64) -> (c: i64)
    ensures
        c == if traces_older_than_ns as int - DEPLOY_GRACE_NS < i64::MIN {
            i64::MIN
        } else {
            (traces_older_than_ns - DEPLOY_GRACE_NS) as i64
        },
{
    if traces_older_than_ns < i64::MIN + DEPLOY_GRACE_NS {
        i64::MIN
    } else {
        traces_older_than_ns - DEPLOY_GRACE_NS
    }
}

/// Minimum number of repeats that counts as N+1: the configured one, at least two.
pub fn n1_threshold_floor(threshold: u32) -> (t: u32)
    ensures
        t == if threshold < 2 { 2 } else { threshold },
        t >= 2,
{
    if threshold < 2 {
        2
    } else {
        threshold
    }
}

/// N+1 threshold used when none is configured.
pub const DEFAULT_N1_THRESHOLD: u32 = 5;

/// Id of a deploy marker recorded at clock reading `clock_ns`: `dep_` and sixteen hex digits.
pub fn deploy_id(clock_ns: u64) -> (id: String)
    ensures
        id@ == "dep_"@ + hex_width(clock_ns as nat, 16),
{
    let mut id = "dep_".to_owned();
    let h = hex16(clock_ns);
    id.append(h.as_str());
    id
}

/// When a deploy happened: the time given, else the clock reading.
pub fn deploy_time(requested: Option<i64>, clock_ns: u64) -> (t: i64)
    ensures
        t == match requested {
            Some(v) => v,
            None => clock_ns as i64,
        },
{
    match requested {
        Some(v) => v,
        None => clock_ns as i64,
    }
}

/// A stored trace as the trace list returns it.
#[derive(Debug, Clone, PartialEq, Eq)]
pub struct TraceSummary {
    pub trace_id: String,
    pub root_resource: Option<String>,
    pub duration_ns: i64,
    pub is_error: bool,
    pub status_code: Option<i64>,
    pub start_time_ns: i64,
    pub span_count: i64,
    pub has_n_plus_one: bool,
    pub root_kind: Option<String>,
}

/// Read a stored trace row: flags are stored as integers (nonzero is set); a
/// missing N+1 flag counts as unset.
pub fn trace_summary_from_row(
    trace_id: String,
    root_resource: Option<String>,
    duration_ns: i64,
    is_error: i64,
    status_code: Option<i64>,
    start_time_ns: i64,
    span_count: i64,
    has_n_plus_one: Option<i64>,
    root_kind: Option<String>,
) -> (t: TraceSummary)
    ensures
        t.trace_id@ == trace_id@,
        opt_view(t.root_resource) == opt_view(root_resource),
        t.duration_ns == duration_ns,
        t.is_error == (is_error != 0),
        t.status_code == status_code,
        t.start_time_ns == start_time_ns,
        t.span_count == span_count,
        t.has_n_plus_one == (match has_n_plus_one {
            Some(v) => v != 0,
            None => false,
        }),
        opt_view(t.root_kind) == opt_view(root_kind),
{
    TraceSummary {
        trace_id,
        root_resource,
        duration_ns,
        is_error: is_error != 0,
        status_code,
        start_time_ns,
        span_count,
        has_n_plus_one: match has_n_plus_one {
            Some(v) => v != 0,
            None => false,
        },
        root_kind,
    }
}

/// A time-based id: the current clock reading as sixteen hex digits.
pub fn hex_id() -> (id: String)
    ensures
        exists|clock: u64| #[trigger] hex_width(clock as nat, 16) == id@,
        id@.len() == 16,
{
    let clock = now_ns();
    let id = hex16(clock);
    proof {
        crate::text::lemma_hex_width_len(clock as nat, 16);
    }
    id
}

/// Law: asking for N+1 traces only changes the trace-list statement by exactly
/// one inserted condition, ` AND t.has_n_plus_one = 1 `, which admits only
/// traces flagged as having an N+1 pattern; everything else stays as it is.
pub proof fn law_n1_only_adds_flag_condition(
    has_resource: bool,
    errors_only: bool,
    has_min: bool,
    has_kind: bool,
)
    ensures
        exists|p: int|
            0 <= p <= traces_sql(has_resource, errors_only, false, has_min, has_kind).len()
                && #[trigger] traces_sql(has_resource, errors_only, true, has_min, has_kind) == traces_sql(
                has_resource,
                errors_only,
                false,
                has_min,
                has_kind,
            ).take(p) + " AND t.has_n_plus_one = 1 "@ + traces_sql(has_resource, errors_only, false, has_min, has_kind).skip(p),
{
    let head = traces_select() + when(has_resource, " AND t.root_resource = ? "@) + when(errors_only, " AND t.is_error = 1 "@);
    let tail = when(has_min, " AND t.duration_ns >= ? "@) + when(has_kind, " AND t.root_kind = ? "@)
        + " GROUP BY t.trace_id ORDER BY t.start_time_ns DESC LIMIT ? "@;
    let off = traces_sql(has_resource, errors_only, false, has_min, has_kind);
    let on = traces_sql(has_resource, errors_only, true, has_min, has_kind);
    assert(off =~= head + tail);
    assert(on =~= head + " AND t.has_n_plus_one = 1 "@ + tail);
    let p = head.len() as int;
    assert(off.take(p) =~= head);
    assert(off.skip(p) =~= tail);
    assert(on == off.take(p) + " AND t.has_n_plus_one = 1 "@ + off.skip(p));
}

} // verus!
