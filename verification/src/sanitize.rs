//! Cardinality caps applied to every batch before it is stored.

use vstd::prelude::*;
use crate::protocol::{
    attrs_view, opt_view, AttrValue, AttrValueView, Attribute, AttributeView, Span, SpanEvent,
    SpanEventView, SpanView, TraceBatch, spans_view,
};
use crate::text::{trunc, truncate};

verus! {

/// Batches longer than this are cut down to it.
pub const MAX_SPANS_PER_BATCH: usize = 5000;
/// Attribute entries kept per span or event.
pub const MAX_ATTRIBUTES_PER_SPAN: usize = 64;
/// Events kept per span.
pub const MAX_EVENTS_PER_SPAN: usize = 16;
/// Characters kept of a span name.
pub const MAX_NAME_CHARS: usize = 256;
/// Characters kept of a span resource.
pub const MAX_RESOURCE_CHARS: usize = 1024;
/// Characters kept of a span kind.
pub const MAX_KIND_CHARS: usize = 64;
/// Characters kept of a string attribute value of a span.
pub const MAX_ATTR_VALUE_CHARS: usize = 2048;
/// Characters kept of an event name.
pub const MAX_EVENT_NAME_CHARS: usize = 128;

/// The first `n` elements of `s`, or all of `s` when it is shorter.
pub open spec fn cap<A>(s: Seq<A>, n: nat) -> Seq<A> {
    if s.len() <= n {
        s
    } else {
        s.take(n as int)
    }
}

pub open spec fn opt_trunc(o: Option<Seq<char>>, max: nat) -> Option<Seq<char>> {
    match o {
        Some(r) => Some(trunc(r, max)),
        None => None,
    }
}

/// A span attribute with a string value cut to the value cap.
pub open spec fn sanitized_attribute(a: AttributeView) -> AttributeView {
    AttributeView {
        key: a.key,
        value: match a.value {
            AttrValueView::Str(s) => AttrValueView::Str(trunc(s, MAX_ATTR_VALUE_CHARS as nat)),
            v => v,
        },
    }
}

pub open spec fn sanitized_event(e: SpanEventView) -> SpanEventView {
    SpanEventView {
        time_unix_ns: e.time_unix_ns,
        name: trunc(e.name, MAX_EVENT_NAME_CHARS as nat),
        attributes: cap(e.attributes, MAX_ATTRIBUTES_PER_SPAN as nat),
    }
}

pub open spec fn sanitized_span(s: SpanView) -> SpanView {
    SpanView {
        name: trunc(s.name, MAX_NAME_CHARS as nat),
        resource: opt_trunc(s.resource, MAX_RESOURCE_CHARS as nat),
        kind: trunc(s.kind, MAX_KIND_CHARS as nat),
        attributes: cap(s.attributes, MAX_ATTRIBUTES_PER_SPAN as nat).map_values(
            |a: AttributeView| sanitized_attribute(a),
        ),
        events: cap(s.events, MAX_EVENTS_PER_SPAN as nat).map_values(
            |e: SpanEventView| sanitized_event(e),
        ),
        ..s
    }
}

/// The spans a sanitized batch keeps, each capped.
pub open spec fn sanitized_spans(spans: Seq<SpanView>) -> Seq<SpanView> {
    cap(spans, MAX_SPANS_PER_BATCH as nat).map_values(|s: SpanView| sanitized_span(s))
}

fn cap_string(s: String, max: usize) -> (r: String)
    ensures
        r@ == trunc(s@, max as nat),
{
    truncate(s.as_str(), max)
}

fn cap_opt_string(o: Option<String>, max: usize) -> (r: Option<String>)
    ensures
        opt_view(r) == opt_trunc(opt_view(o), max as nat),
{
    match o {
        Some(s) => Some(cap_string(s, max)),
        None => None,
    }
}

fn cap_attributes(attrs: Vec<Attribute>, cap_values: bool) -> (r: Vec<Attribute>)
    ensures
        cap_values ==> attrs_view(r@) == cap(attrs_view(attrs@), MAX_ATTRIBUTES_PER_SPAN as nat).map_values(
            |a: AttributeView| sanitized_attribute(a),
        ),
        !cap_values ==> attrs_view(r@) == cap(attrs_view(attrs@), MAX_ATTRIBUTES_PER_SPAN as nat),
{
    let mut attrs = attrs;
    let ghost full = attrs_view(attrs@);
    if attrs.len() > MAX_ATTRIBUTES_PER_SPAN {
        attrs.truncate(MAX_ATTRIBUTES_PER_SPAN);
    }
    let ghost kept = attrs_view(attrs@);
    assert(kept =~= cap(full, MAX_ATTRIBUTES_PER_SPAN as nat));
    let mut out: Vec<Attribute> = Vec::new();
    for a in it: attrs.into_iter()
        invariant
            it.seq() == attrs@,
            kept == attrs_view(attrs@),
            cap_values ==> attrs_view(out@) == attrs_view(it.seq().take(it.index() as int)).map_values(
                |a: AttributeView| sanitized_attribute(a),
            ),
            !cap_values ==> attrs_view(out@) == attrs_view(it.seq().take(it.index() as int)),
    {
        let ghost before = out@;
        let Attribute { key, value } = a;
        let value = if cap_values {
            match value {
                AttrValue::Str(s) => AttrValue::Str(cap_string(s, MAX_ATTR_VALUE_CHARS)),
                v => v,
            }
        } else {
            value
        };
        out.push(Attribute { key, value });
        proof {
            let i = it.index();
            assert(it.seq().take(i + 1) =~= it.seq().take(i).push(it.seq()[i]));
            assert(attrs_view(out@) =~= attrs_view(before).push(out@[i]@));
            assert(attrs_view(it.seq().take(i + 1)) =~= attrs_view(it.seq().take(i)).push(it.seq()[i]@));
            if cap_values {
                assert(attrs_view(it.seq().take(i + 1)).map_values(|a: AttributeView| sanitized_attribute(a))
                    =~= attrs_view(it.seq().take(i)).map_values(|a: AttributeView| sanitized_attribute(a)).push(
                    sanitized_attribute(it.seq()[i]@)));
            }
        }
    }
    assert(attrs@.take(attrs@.len() as int) =~= attrs@);
    out
}

fn sanitize_event(e: SpanEvent) -> (r: SpanEvent)
    ensures
        r@ == sanitized_event(e@),
{
    let SpanEvent { time_unix_ns, name, attributes } = e;
    SpanEvent {
        time_unix_ns,
        name: cap_string(name, MAX_EVENT_NAME_CHARS),
        attributes: cap_attributes(attributes, false),
    }
}

fn sanitize_events(events: Vec<SpanEvent>) -> (r: Vec<SpanEvent>)
    ensures
        r@.map_values(|e: SpanEvent| e@) == cap(events@.map_values(|e: SpanEvent| e@), MAX_EVENTS_PER_SPAN as nat)
            .map_values(|e: SpanEventView| sanitized_event(e)),
{
    let mut events = events;
    let ghost full = events@.map_values(|e: SpanEvent| e@);
    if events.len() > MAX_EVENTS_PER_SPAN {
        events.truncate(MAX_EVENTS_PER_SPAN);
    }
    assert(events@.map_values(|e: SpanEvent| e@) =~= cap(full, MAX_EVENTS_PER_SPAN as nat));
    let ghost kept = events@;
    let mut out: Vec<SpanEvent> = Vec::new();
    for e in it: events.into_iter()
        invariant
            it.seq() == kept,
            out@.map_values(|e: SpanEvent| e@) == it.seq().take(it.index() as int).map_values(|e: SpanEvent| e@)
                .map_values(|e: SpanEventView| sanitized_event(e)),
    {
        let ghost before = out@;
        out.push(sanitize_event(e));
        proof {
            let i = it.index();
            assert(it.seq().take(i + 1) =~= it.seq().take(i).push(it.seq()[i]));
            assert(out@.map_values(|e: SpanEvent| e@) =~= before.map_values(|e: SpanEvent| e@).push(out@[i]@));
            assert(it.seq().take(i + 1).map_values(|e: SpanEvent| e@).map_values(|e: SpanEventView| sanitized_event(e))
                =~= it.seq().take(i).map_values(|e: SpanEvent| e@).map_values(|e: SpanEventView| sanitized_event(e))
                .push(sanitized_event(it.seq()[i]@)));
        }
    }
    assert(kept.take(kept.len() as int) =~= kept);
    out
}

/// Apply the per-span caps: name, resource, kind, attribute count and string values, events.
pub fn sanitize_span(span: Span) -> (r: Span)
    ensures
        r@ == sanitized_span(span@),
{
    let Span {
        trace_id,
        span_id,
        parent_span_id,
        name,
        kind,
        resource,
        start_time_unix_ns,
        end_time_unix_ns,
        status,
        attributes,
        events,
    } = span;
    Span {
        trace_id,
        span_id,
        parent_span_id,
        name: cap_string(name, MAX_NAME_CHARS),
        kind: cap_string(kind, MAX_KIND_CHARS),
        resource: cap_opt_string(resource, MAX_RESOURCE_CHARS),
        start_time_unix_ns,
        end_time_unix_ns,
        status,
        attributes: cap_attributes(attributes, true),
        events: sanitize_events(events),
    }
}

/// Truncate high-cardinality fields before persistence: keep at most
/// `MAX_SPANS_PER_BATCH` spans and cap every span. Returns the batch and the
/// number of spans cut off.
pub fn sanitize_batch(batch: TraceBatch) -> (r: (TraceBatch, usize))
    ensures
        r.0@.protocol_version == batch@.protocol_version,
        r.0@.sdk == batch@.sdk,
        r.0@.resource == batch@.resource,
        r.0@.spans == sanitized_spans(batch@.spans),
        r.1 == batch@.spans.len() - cap(batch@.spans, MAX_SPANS_PER_BATCH as nat).len(),
{
    let TraceBatch { protocol_version, sdk, resource, spans } = batch;
    let mut spans = spans;
    let ghost full = spans_view(spans@);
    let original = spans.len();
    let mut dropped: usize = 0;
    if spans.len() > MAX_SPANS_PER_BATCH {
        spans.truncate(MAX_SPANS_PER_BATCH);
        dropped = original - spans.len();
    }
    assert(spans_view(spans@) =~= cap(full, MAX_SPANS_PER_BATCH as nat));
    let ghost kept = spans@;
    let mut out: Vec<Span> = Vec::new();
    for s in it: spans.into_iter()
        invariant
            it.seq() == kept,
            spans_view(out@) == spans_view(it.seq().take(it.index() as int)).map_values(
                |s: SpanView| sanitized_span(s),
            ),
    {
        let ghost before = out@;
        out.push(sanitize_span(s));
        proof {
            let i = it.index();
            assert(it.seq().take(i + 1) =~= it.seq().take(i).push(it.seq()[i]));
            assert(spans_view(out@) =~= spans_view(before).push(out@[i]@));
            assert(spans_view(it.seq().take(i + 1)).map_values(|s: SpanView| sanitized_span(s))
                =~= spans_view(it.seq().take(i)).map_values(|s: SpanView| sanitized_span(s)).push(
                sanitized_span(it.seq()[i]@)));
        }
    }
    assert(kept.take(kept.len() as int) =~= kept);
    (TraceBatch { protocol_version, sdk, resource, spans: out }, dropped)
}

pub open spec fn attr_value_within_cap(a: AttributeView) -> bool {
    match a.value {
        AttrValueView::Str(v) => v.len() <= MAX_ATTR_VALUE_CHARS,
        _ => true,
    }
}

/// Every span a sanitized batch holds is within the caps: name, resource, kind,
/// attribute count, string attribute values, event count, event names and event attribute count.
pub open spec fn span_within_caps(s: SpanView) -> bool {
    &&& s.name.len() <= MAX_NAME_CHARS
    &&& (s.resource matches Some(r) ==> r.len() <= MAX_RESOURCE_CHARS)
    &&& s.kind.len() <= MAX_KIND_CHARS
    &&& s.attributes.len() <= MAX_ATTRIBUTES_PER_SPAN
    &&& (forall|i: int| 0 <= i < s.attributes.len() ==>
            attr_value_within_cap(#[trigger] s.attributes[i]))
    &&& s.events.len() <= MAX_EVENTS_PER_SPAN
    &&& (forall|i: int| 0 <= i < s.events.len() ==> (#[trigger] s.events[i]).name.len() <= MAX_EVENT_NAME_CHARS
            && s.events[i].attributes.len() <= MAX_ATTRIBUTES_PER_SPAN)
}

/// Law: after sanitizing, a batch holds at most `MAX_SPANS_PER_BATCH` spans, each within the caps,
/// and the kept spans plus the reported drop count make up the spans received.
pub proof fn law_sanitized_within_caps(spans: Seq<SpanView>)
    ensures
        sanitized_spans(spans).len() <= MAX_SPANS_PER_BATCH,
        sanitized_spans(spans).len() + (spans.len() - cap(spans, MAX_SPANS_PER_BATCH as nat).len()) == spans.len(),
        forall|i: int| 0 <= i < sanitized_spans(spans).len() ==> span_within_caps(#[trigger] sanitized_spans(spans)[i]),
{
    assert forall|i: int| 0 <= i < sanitized_spans(spans).len() implies span_within_caps(#[trigger] sanitized_spans(spans)[i]) by {
        let s = cap(spans, MAX_SPANS_PER_BATCH as nat)[i];
        let r = sanitized_span(s);
        assert(sanitized_spans(spans)[i] == r);
        assert forall|j: int| 0 <= j < r.attributes.len() implies
            attr_value_within_cap(#[trigger] r.attributes[j]) by {
            assert(r.attributes[j] == sanitized_attribute(cap(s.attributes, MAX_ATTRIBUTES_PER_SPAN as nat)[j]));
        }
        assert forall|j: int| 0 <= j < r.events.len() implies (#[trigger] r.events[j]).name.len() <= MAX_EVENT_NAME_CHARS
            && r.events[j].attributes.len() <= MAX_ATTRIBUTES_PER_SPAN by {
            assert(r.events[j] == sanitized_event(cap(s.events, MAX_EVENTS_PER_SPAN as nat)[j]));
        }
    }
}

proof fn lemma_trunc_idempotent(s: Seq<char>, m: nat)
    ensures
        trunc(trunc(s, m), m) == trunc(s, m),
{
}

proof fn lemma_attribute_idempotent(a: AttributeView)
    ensures
        sanitized_attribute(sanitized_attribute(a)) == sanitized_attribute(a),
{
}

proof fn lemma_attributes_idempotent(attrs: Seq<AttributeView>)
    ensures
        cap(cap(attrs, MAX_ATTRIBUTES_PER_SPAN as nat).map_values(|a: AttributeView| sanitized_attribute(a)),
            MAX_ATTRIBUTES_PER_SPAN as nat).map_values(|a: AttributeView| sanitized_attribute(a))
            == cap(attrs, MAX_ATTRIBUTES_PER_SPAN as nat).map_values(|a: AttributeView| sanitized_attribute(a)),
{
    let once = cap(attrs, MAX_ATTRIBUTES_PER_SPAN as nat).map_values(|a: AttributeView| sanitized_attribute(a));
    assert(cap(once, MAX_ATTRIBUTES_PER_SPAN as nat) == once);
    let twice = once.map_values(|a: AttributeView| sanitized_attribute(a));
    assert forall|i: int| 0 <= i < once.len() implies #[trigger] twice[i] == once[i] by {
        lemma_attribute_idempotent(cap(attrs, MAX_ATTRIBUTES_PER_SPAN as nat)[i]);
    }
    assert(twice =~= once);
}

proof fn lemma_events_idempotent(events: Seq<SpanEventView>)
    ensures
        cap(cap(events, MAX_EVENTS_PER_SPAN as nat).map_values(|e: SpanEventView| sanitized_event(e)),
            MAX_EVENTS_PER_SPAN as nat).map_values(|e: SpanEventView| sanitized_event(e))
            == cap(events, MAX_EVENTS_PER_SPAN as nat).map_values(|e: SpanEventView| sanitized_event(e)),
{
    let once = cap(events, MAX_EVENTS_PER_SPAN as nat).map_values(|e: SpanEventView| sanitized_event(e));
    assert(cap(once, MAX_EVENTS_PER_SPAN as nat) == once);
    let twice = once.map_values(|e: SpanEventView| sanitized_event(e));
    assert forall|i: int| 0 <= i < once.len() implies #[trigger] twice[i] == once[i] by {
        let e = cap(events, MAX_EVENTS_PER_SPAN as nat)[i];
        lemma_trunc_idempotent(e.name, MAX_EVENT_NAME_CHARS as nat);
        assert(cap(cap(e.attributes, MAX_ATTRIBUTES_PER_SPAN as nat), MAX_ATTRIBUTES_PER_SPAN as nat)
            == cap(e.attributes, MAX_ATTRIBUTES_PER_SPAN as nat));
    }
    assert(twice =~= once);
}

proof fn lemma_span_idempotent(s: SpanView)
    ensures
        sanitized_span(sanitized_span(s)) == sanitized_span(s),
{
    lemma_trunc_idempotent(s.name, MAX_NAME_CHARS as nat);
    lemma_trunc_idempotent(s.kind, MAX_KIND_CHARS as nat);
    if let Some(r) = s.resource {
        lemma_trunc_idempotent(r, MAX_RESOURCE_CHARS as nat);
    }
    lemma_attributes_idempotent(s.attributes);
    lemma_events_idempotent(s.events);
}

/// Law: sanitizing is idempotent; a sanitized batch passes through a second
/// sanitization unchanged, with nothing dropped.
pub proof fn law_sanitize_idempotent(spans: Seq<SpanView>)
    ensures
        sanitized_spans(sanitized_spans(spans)) == sanitized_spans(spans),
        cap(sanitized_spans(spans), MAX_SPANS_PER_BATCH as nat).len() == sanitized_spans(spans).len(),
{
    let once = sanitized_spans(spans);
    assert(cap(once, MAX_SPANS_PER_BATCH as nat) == once);
    let twice = once.map_values(|s: SpanView| sanitized_span(s));
    assert forall|i: int| 0 <= i < once.len() implies #[trigger] twice[i] == once[i] by {
        lemma_span_idempotent(cap(spans, MAX_SPANS_PER_BATCH as nat)[i]);
    }
    assert(twice =~= once);
}

} // verus!
