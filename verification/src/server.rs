//! Decisions of the HTTP layer: which requests are refused and with what,
//! what an accepted batch is answered, and which tokens guard which routes.

use vstd::prelude::*;
use vstd::string::*;
use crate::protocol::{opt_view, IngestResponse, PROTOCOL_VERSION};
use crate::protocol::{SpanView, TraceBatch};
use crate::sampling::{denoised_spans, filter_noise, sample_batch, sampled_spans};
use crate::sanitize::{cap, sanitize_batch, sanitized_spans, MAX_SPANS_PER_BATCH};

verus! {

/// Largest ingest body accepted, in bytes (16 MiB).
pub const MAX_BODY_BYTES: usize = 16_777_216;

/// Why a request is refused.
#[derive(Debug, Clone, Copy, PartialEq, Eq)]
pub enum Rejection {
    /// 401: the bearer token is missing or wrong.
    Unauthorized,
    /// 413: the body or the batch is too large.
    PayloadTooLarge,
    /// 400: the body is not a batch of a supported protocol version.
    BadRequest,
}

/// Checks made before the body is parsed: the token, then the body size.
pub fn screen_request(authorized: bool, body_len: usize) -> (r: Result<(), Rejection>)
    ensures
        r == if !authorized {
            Err(Rejection::Unauthorized)
        } else if body_len > MAX_BODY_BYTES {
            Err(Rejection::PayloadTooLarge)
        } else {
            Ok(())
        },
{
    if !authorized {
        Err(Rejection::Unauthorized)
    } else if body_len > MAX_BODY_BYTES {
        Err(Rejection::PayloadTooLarge)
    } else {
        Ok(())
    }
}

/// Checks made on a parsed batch: the protocol version, then the span count.
pub fn screen_batch(protocol_version: u32, span_count: usize) -> (r: Result<(), Rejection>)
    ensures
        r == if protocol_version != PROTOCOL_VERSION {
            Err(Rejection::BadRequest)
        } else if span_count > MAX_SPANS_PER_BATCH {
            Err(Rejection::PayloadTooLarge)
        } else {
            Ok(())
        },
{
    if protocol_version != PROTOCOL_VERSION {
        Err(Rejection::BadRequest)
    } else if span_count > MAX_SPANS_PER_BATCH {
        Err(Rejection::PayloadTooLarge)
    } else {
        Ok(())
    }
}

/// The agent's check on a parsed batch: only the protocol version.
pub fn screen_agent_batch(protocol_version: u32) -> (r: Result<(), Rejection>)
    ensures
        r == if protocol_version != PROTOCOL_VERSION {
            Err(Rejection::BadRequest)
        } else {
            Ok(())
        },
{
    if protocol_version != PROTOCOL_VERSION {
        Err(Rejection::BadRequest)
    } else {
        Ok(())
    }
}

/// The spans the sampling step keeps: all of them when sampling is off
/// (`None`), else those of the traces it keeps.
pub open spec fn after_sampling(spans: Seq<SpanView>, keep_below: Option<u64>, slow_ms: u64) -> Seq<SpanView> {
    match keep_below {
        Some(k) => sampled_spans(spans, k, slow_ms),
        None => spans,
    }
}

/// What an accepted batch goes through before it is stored: the cardinality
/// caps, then sampling (skipped when `keep_below` is `None`, that is at a
/// sample rate of one), then the health-check filter. Returns the batch and
/// the spans dropped by the caps and by sampling.
pub fn ingest_pipeline(batch: TraceBatch, keep_below: Option<u64>, slow_ms: u64) -> (out: (TraceBatch, usize, usize))
    ensures
        out.0@.protocol_version == batch@.protocol_version,
        out.0@.sdk == batch@.sdk,
        out.0@.resource == batch@.resource,
        out.0@.spans == denoised_spans(after_sampling(sanitized_spans(batch@.spans), keep_below, slow_ms)),
        out.1 == batch@.spans.len() - cap(batch@.spans, MAX_SPANS_PER_BATCH as nat).len(),
        out.2 == sanitized_spans(batch@.spans).len() - after_sampling(
            sanitized_spans(batch@.spans),
            keep_below,
            slow_ms,
        ).len(),
{
    let (capped, card_dropped) = sanitize_batch(batch);
    let (sampled, sample_dropped) = match keep_below {
        Some(k) => sample_batch(capped, k, slow_ms),
        None => (capped, 0),
    };
    (filter_noise(sampled), card_dropped, sample_dropped)
}

/// The answer to a stored batch: the spans stored, and the spans received but
/// not stored (saturating).
pub fn ingest_response(incoming: usize, accepted: usize) -> (r: IngestResponse)
    ensures
        r.ok,
        r.accepted_spans == accepted,
        r.dropped_spans == if incoming >= accepted {
            (incoming - accepted) as usize
        } else {
            0
        },
{
    IngestResponse {
        ok: true,
        accepted_spans: accepted,
        dropped_spans: if incoming >= accepted {
            incoming - accepted
        } else {
            0
        },
    }
}

/// The agent's answer: every span is accepted.
pub fn agent_response(count: usize) -> (r: IngestResponse)
    ensures
        r.ok,
        r.accepted_spans == count,
        r.dropped_spans == 0,
{
    IngestResponse { ok: true, accepted_spans: count, dropped_spans: 0 }
}

/// A configured token, unless it is empty.
pub open spec fn nonempty(t: Option<Seq<char>>) -> Option<Seq<char>> {
    match t {
        Some(s) => if s.len() > 0 {
            Some(s)
        } else {
            None
        },
        None => None,
    }
}

/// A configured token, unless it is empty.
pub fn nonempty_token(t: Option<String>) -> (r: Option<String>)
    ensures
        opt_view(r) == nonempty(opt_view(t)),
{
    match t {
        Some(s) => {
            if s.unicode_len() > 0 {
                Some(s)
            } else {
                None
            }
        },
        None => None,
    }
}

/// The token guarding the query routes: the UI token when it is set and
/// non-empty, else the API key when that is non-empty, else none.
pub fn ui_token_of(ui_token: Option<String>, api_key: Option<String>) -> (r: Option<String>)
    ensures
        opt_view(r) == match nonempty(opt_view(ui_token)) {
            Some(t) => Some(t),
            None => nonempty(opt_view(api_key)),
        },
{
    match nonempty_token(ui_token) {
        Some(t) => Some(t),
        None => nonempty_token(api_key),
    }
}

/// Whether a request path is a query route, which the UI token guards.
pub fn needs_ui_auth(path: &str) -> (r: bool)
    ensures
        r == (path@.len() >= 5 && path@.take(5) == "/api/"@),
{
    let n = path.unicode_len();
    if n < 5 {
        return false;
    }
    let head: String = path.substring_char(0, 5).to_owned();
    proof {
        assert(path@.subrange(0, 5) =~= path@.take(5));
    }
    crate::text::eq_str(&head, "/api/")
}

} // verus!
