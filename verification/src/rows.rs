//! The rows a stored batch leaves behind, and how writing a batch merges into
//! the rows already there.
//!
//! The store keys its tables by trace id, span id and N+1 event id. Writing a
//! trace record replaces the stored one but keeps an N+1 flag already set;
//! writing a span record replaces the stored one but keeps its trace id; an
//! N+1 event is written only when no event with its id is stored. The
//! statements below are the ones that perform these writes.

use vstd::prelude::*;
use crate::ingest::{
    distinct_tids, law_replan_changes_only_times, planned, NPlusOneEventView, SpanRecordView,
    TracePlanView, TraceRecordView,
};
use crate::protocol::SpanView;

verus! {

/// Writes a trace record (`upsert_trace`): an existing row is replaced, its
/// N+1 flag kept when set.
pub const TRACE_UPSERT_SQL: &'static str = "INSERT INTO traces ( trace_id, root_resource, http_method, status_code, duration_ns, service, is_error, start_time_ns, received_at_ns, has_n_plus_one, root_kind ) VALUES (?, ?, ?, ?, ?, ?, ?, ?, ?, ?, ?) ON CONFLICT(trace_id) DO UPDATE SET root_resource = excluded.root_resource, http_method = excluded.http_method, status_code = excluded.status_code, duration_ns = excluded.duration_ns, service = excluded.service, is_error = excluded.is_error, start_time_ns = excluded.start_time_ns, received_at_ns = excluded.received_at_ns, has_n_plus_one = CASE WHEN excluded.has_n_plus_one = 1 THEN 1 ELSE traces.has_n_plus_one END, root_kind = excluded.root_kind";

/// Writes a span record (`upsert_spans`): an existing row is replaced but for its trace id.
pub const SPAN_UPSERT_SQL: &'static str = "INSERT INTO spans ( span_id, trace_id, parent_span_id, name, kind, resource, start_ns, duration_ns, status, attributes_json ) VALUES (?, ?, ?, ?, ?, ?, ?, ?, ?, ?) ON CONFLICT(span_id) DO UPDATE SET parent_span_id = excluded.parent_span_id, name = excluded.name, kind = excluded.kind, resource = excluded.resource, start_ns = excluded.start_ns, duration_ns = excluded.duration_ns, status = excluded.status, attributes_json = excluded.attributes_json";

/// Writes an N+1 event (`insert_events`) unless one with its id is stored.
pub const EVENT_INSERT_SQL: &'static str = "INSERT INTO n_plus_one_events ( id, trace_id, root_resource, sql_fingerprint, repeat_count, total_duration_ns, detected_at_ns, code_filepath, code_lineno, code_function ) VALUES (?, ?, ?, ?, ?, ?, ?, ?, ?, ?) ON CONFLICT(id) DO NOTHING";

/// The stored rows, keyed as the store's tables are.
pub struct RowsView {
    pub traces: Map<Seq<char>, TraceRecordView>,
    pub spans: Map<Seq<char>, SpanRecordView>,
    pub events: Map<Seq<char>, NPlusOneEventView>,
}

/// Write one trace record: a stored record with its id is replaced, keeping
/// the N+1 flag when either one has it.
pub open spec fn upsert_trace(
    rows: Map<Seq<char>, TraceRecordView>,
    t: TraceRecordView,
) -> Map<Seq<char>, TraceRecordView> {
    if rows.contains_key(t.trace_id) {
        rows.insert(
            t.trace_id,
            TraceRecordView { has_n_plus_one: t.has_n_plus_one || rows[t.trace_id].has_n_plus_one, ..t },
        )
    } else {
        rows.insert(t.trace_id, t)
    }
}

/// Write span records in order: a stored record with the same span id is
/// replaced, keeping its trace id.
pub open spec fn upsert_spans(
    rows: Map<Seq<char>, SpanRecordView>,
    recs: Seq<SpanRecordView>,
) -> Map<Seq<char>, SpanRecordView>
    decreases recs.len(),
{
    if recs.len() == 0 {
        rows
    } else {
        let before = upsert_spans(rows, recs.drop_last());
        let r = recs.last();
        if before.contains_key(r.span_id) {
            before.insert(r.span_id, SpanRecordView { trace_id: before[r.span_id].trace_id, ..r })
        } else {
            before.insert(r.span_id, r)
        }
    }
}

/// Write N+1 events in order, each only when no event with its id is stored.
pub open spec fn insert_events(
    rows: Map<Seq<char>, NPlusOneEventView>,
    evs: Seq<NPlusOneEventView>,
) -> Map<Seq<char>, NPlusOneEventView>
    decreases evs.len(),
{
    if evs.len() == 0 {
        rows
    } else {
        let before = insert_events(rows, evs.drop_last());
        if before.contains_key(evs.last().id) {
            before
        } else {
            before.insert(evs.last().id, evs.last())
        }
    }
}

/// Write the plan of one trace: its record, then its spans, then its events.
pub open spec fn apply_plan(rows: RowsView, p: TracePlanView) -> RowsView {
    RowsView {
        traces: upsert_trace(rows.traces, p.trace),
        spans: upsert_spans(rows.spans, p.spans),
        events: insert_events(rows.events, p.events),
    }
}

/// Write the plans of a batch in order.
pub open spec fn apply_plans(rows: RowsView, ps: Seq<TracePlanView>) -> RowsView
    decreases ps.len(),
{
    if ps.len() == 0 {
        rows
    } else {
        apply_plan(apply_plans(rows, ps.drop_last()), ps.last())
    }
}

/// Every key the plan writes is already stored.
pub open spec fn keys_stored(rows: RowsView, p: TracePlanView) -> bool {
    &&& rows.traces.contains_key(p.trace.trace_id)
    &&& forall|j: int| 0 <= j < p.spans.len() ==> rows.spans.contains_key(#[trigger] p.spans[j].span_id)
    &&& forall|j: int| 0 <= j < p.events.len() ==> rows.events.contains_key(#[trigger] p.events[j].id)
}

/// Same keys stored, with the same N+1 flags and the same events.
pub open spec fn same_keys_and_flags(a: RowsView, b: RowsView) -> bool {
    &&& a.traces.dom() == b.traces.dom()
    &&& a.spans.dom() == b.spans.dom()
    &&& a.events == b.events
    &&& forall|k: Seq<char>| #[trigger] a.traces.contains_key(k) ==> a.traces[k].has_n_plus_one
        == b.traces[k].has_n_plus_one
}

proof fn lemma_upsert_spans_keys(rows: Map<Seq<char>, SpanRecordView>, recs: Seq<SpanRecordView>)
    ensures
        forall|k: Seq<char>| rows.contains_key(k) ==> #[trigger] upsert_spans(rows, recs).contains_key(k),
        forall|j: int| 0 <= j < recs.len() ==> upsert_spans(rows, recs).contains_key(#[trigger] recs[j].span_id),
        (forall|j: int| 0 <= j < recs.len() ==> rows.contains_key(#[trigger] recs[j].span_id)) ==> upsert_spans(
            rows,
            recs,
        ).dom() == rows.dom(),
    decreases recs.len(),
{
    if recs.len() > 0 {
        let init = recs.drop_last();
        lemma_upsert_spans_keys(rows, init);
        assert forall|j: int| 0 <= j < recs.len() implies upsert_spans(rows, recs).contains_key(
            #[trigger] recs[j].span_id,
        ) by {
            if j < recs.len() - 1 {
                assert(init[j] == recs[j]);
            }
        }
        if forall|j: int| 0 <= j < recs.len() ==> rows.contains_key(#[trigger] recs[j].span_id) {
            assert forall|j: int| 0 <= j < init.len() implies rows.contains_key(#[trigger] init[j].span_id) by {
                assert(init[j] == recs[j]);
            }
            assert(rows.contains_key(recs[recs.len() - 1].span_id));
            assert(upsert_spans(rows, recs).dom() =~= rows.dom());
        }
    }
}

proof fn lemma_insert_events_keys(rows: Map<Seq<char>, NPlusOneEventView>, evs: Seq<NPlusOneEventView>)
    ensures
        forall|k: Seq<char>| rows.contains_key(k) ==> #[trigger] insert_events(rows, evs).contains_key(k),
        forall|j: int| 0 <= j < evs.len() ==> insert_events(rows, evs).contains_key(#[trigger] evs[j].id),
        (forall|j: int| 0 <= j < evs.len() ==> rows.contains_key(#[trigger] evs[j].id)) ==> insert_events(rows, evs)
            == rows,
    decreases evs.len(),
{
    if evs.len() > 0 {
        let init = evs.drop_last();
        lemma_insert_events_keys(rows, init);
        assert forall|j: int| 0 <= j < evs.len() implies insert_events(rows, evs).contains_key(
            #[trigger] evs[j].id,
        ) by {
            if j < evs.len() - 1 {
                assert(init[j] == evs[j]);
            }
        }
        if forall|j: int| 0 <= j < evs.len() ==> rows.contains_key(#[trigger] evs[j].id) {
            assert forall|j: int| 0 <= j < init.len() implies rows.contains_key(#[trigger] init[j].id) by {
                assert(init[j] == evs[j]);
            }
            assert(rows.contains_key(evs[evs.len() - 1].id));
        }
    }
}

/// Writing plans never removes a key and never clears an N+1 flag; afterwards
/// every key the plans write is stored, with the flag set where a plan sets it.
proof fn lemma_apply_plans_grows(rows: RowsView, ps: Seq<TracePlanView>)
    ensures
        forall|k: Seq<char>| rows.traces.contains_key(k) ==> #[trigger] apply_plans(rows, ps).traces.contains_key(k),
        forall|k: Seq<char>| rows.spans.contains_key(k) ==> #[trigger] apply_plans(rows, ps).spans.contains_key(k),
        forall|k: Seq<char>| rows.events.contains_key(k) ==> #[trigger] apply_plans(rows, ps).events.contains_key(k),
        forall|k: Seq<char>| rows.traces.contains_key(k) && rows.traces[k].has_n_plus_one ==> (#[trigger] apply_plans(
            rows,
            ps,
        ).traces[k]).has_n_plus_one,
        forall|i: int| 0 <= i < ps.len() ==> keys_stored(apply_plans(rows, ps), #[trigger] ps[i]),
        forall|i: int| 0 <= i < ps.len() && (#[trigger] ps[i]).trace.has_n_plus_one ==> apply_plans(
            rows,
            ps,
        ).traces[ps[i].trace.trace_id].has_n_plus_one,
    decreases ps.len(),
{
    if ps.len() > 0 {
        let init = ps.drop_last();
        let mid = apply_plans(rows, init);
        let p = ps.last();
        lemma_apply_plans_grows(rows, init);
        lemma_upsert_spans_keys(mid.spans, p.spans);
        lemma_insert_events_keys(mid.events, p.events);
        let out = apply_plans(rows, ps);
        assert(out == apply_plan(mid, p));
        assert forall|i: int| 0 <= i < ps.len() implies keys_stored(out, #[trigger] ps[i]) by {
            if i < ps.len() - 1 {
                assert(init[i] == ps[i]);
                assert(keys_stored(mid, init[i]));
                let q = ps[i];
                assert forall|j: int| 0 <= j < q.spans.len() implies out.spans.contains_key(
                    #[trigger] q.spans[j].span_id,
                ) by {
                    assert(mid.spans.contains_key(q.spans[j].span_id));
                }
                assert forall|j: int| 0 <= j < q.events.len() implies out.events.contains_key(
                    #[trigger] q.events[j].id,
                ) by {
                    assert(mid.events.contains_key(q.events[j].id));
                }
            }
        }
        assert forall|i: int| 0 <= i < ps.len() && (#[trigger] ps[i]).trace.has_n_plus_one implies out.traces[ps[
            i].trace.trace_id].has_n_plus_one by {
            if i < ps.len() - 1 {
                assert(init[i] == ps[i]);
            }
        }
    }
}

/// Writing plans whose keys are all stored already, and which set an N+1
/// flag only where it is set, leaves the same keys, flags and events.
proof fn lemma_apply_stored_plans(rows: RowsView, ps: Seq<TracePlanView>)
    requires
        forall|i: int| 0 <= i < ps.len() ==> keys_stored(rows, #[trigger] ps[i]),
        forall|i: int| 0 <= i < ps.len() && (#[trigger] ps[i]).trace.has_n_plus_one ==> rows.traces[ps[
            i].trace.trace_id].has_n_plus_one,
    ensures
        same_keys_and_flags(apply_plans(rows, ps), rows),
    decreases ps.len(),
{
    if ps.len() > 0 {
        let init = ps.drop_last();
        assert forall|i: int| 0 <= i < init.len() implies keys_stored(rows, #[trigger] init[i]) by {
            assert(init[i] == ps[i]);
        }
        assert forall|i: int| 0 <= i < init.len() && (#[trigger] init[i]).trace.has_n_plus_one implies rows.traces[init[
            i].trace.trace_id].has_n_plus_one by {
            assert(init[i] == ps[i]);
        }
        lemma_apply_stored_plans(rows, init);
        let mid = apply_plans(rows, init);
        let p = ps.last();
        assert(keys_stored(rows, ps[ps.len() - 1]));
        lemma_upsert_spans_keys(mid.spans, p.spans);
        lemma_insert_events_keys(mid.events, p.events);
        assert forall|j: int| 0 <= j < p.spans.len() implies mid.spans.contains_key(#[trigger] p.spans[j].span_id) by {
            assert(rows.spans.contains_key(p.spans[j].span_id));
        }
        assert forall|j: int| 0 <= j < p.events.len() implies mid.events.contains_key(#[trigger] p.events[j].id) by {
            assert(rows.events.contains_key(p.events[j].id));
        }
        let out = apply_plans(rows, ps);
        assert(out == apply_plan(mid, p));
        assert(mid.traces.contains_key(p.trace.trace_id));
        assert(out.traces.dom() =~= mid.traces.dom());
        assert forall|k: Seq<char>| #[trigger] out.traces.contains_key(k) implies out.traces[k].has_n_plus_one
            == rows.traces[k].has_n_plus_one by {
            assert(mid.traces.contains_key(k));
            if k == p.trace.trace_id && p.trace.has_n_plus_one {
                assert(rows.traces[ps[ps.len() - 1].trace.trace_id].has_n_plus_one);
            }
        }
    }
}

/// Law: an N+1 flag, once stored, is never cleared by writing further plans.
pub proof fn law_flag_never_cleared(rows: RowsView, ps: Seq<TracePlanView>, k: Seq<char>)
    requires
        rows.traces.contains_key(k),
        rows.traces[k].has_n_plus_one,
    ensures
        apply_plans(rows, ps).traces.contains_key(k),
        apply_plans(rows, ps).traces[k].has_n_plus_one,
{
    lemma_apply_plans_grows(rows, ps);
}

/// Law: ingesting the same spans a second time, at any receive time, adds no
/// row: the stored trace ids, span ids, N+1 events and N+1 flags are those the
/// first ingest left.
pub proof fn law_reingest_adds_no_rows(
    rows: RowsView,
    all: Seq<SpanView>,
    service: Option<Seq<char>>,
    threshold: u32,
    t1: i64,
    t2: i64,
)
    ensures
        same_keys_and_flags(
            apply_plans(apply_plans(rows, planned(all, service, threshold, t1)), planned(all, service, threshold, t2)),
            apply_plans(rows, planned(all, service, threshold, t1)),
        ),
{
    let ps1 = planned(all, service, threshold, t1);
    let ps2 = planned(all, service, threshold, t2);
    let r1 = apply_plans(rows, ps1);
    lemma_apply_plans_grows(rows, ps1);
    assert forall|i: int| 0 <= i < ps2.len() implies keys_stored(r1, #[trigger] ps2[i]) && (ps2[i].trace.has_n_plus_one
        ==> r1.traces[ps2[i].trace.trace_id].has_n_plus_one) by {
        let tid = distinct_tids(all)[i];
        law_replan_changes_only_times(all, tid, service, threshold, t1, t2);
        assert(keys_stored(r1, ps1[i]));
        assert(ps1[i].spans == ps2[i].spans);
        assert forall|j: int| 0 <= j < ps2[i].events.len() implies r1.events.contains_key(
            #[trigger] ps2[i].events[j].id,
        ) by {
            assert(ps2[i].events[j].id == ps1[i].events[j].id);
        }
    }
    lemma_apply_stored_plans(r1, ps2);
}

} // verus!
