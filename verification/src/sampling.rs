//! Server-side trace sampling and noise filtering.
//!
//! Whole traces are kept or dropped together. A trace is always kept when one
//! of its spans has status `error` or when its root is at least `slow_ms` long;
//! otherwise it is kept when the FNV-1a bucket of its root's trace id falls
//! below the keep threshold.

use vstd::prelude::*;
use vstd::utf8::encode_utf8;
use crate::protocol::{span_duration, spans_view, Span, SpanView, TraceBatch};
use crate::text::{eq_str, fnv1a, simple_hash};

verus! {

/// Number of sampling buckets; a keep threshold of this many keeps every trace.
pub const SAMPLE_BUCKETS: u64 = 10000;

/// Nanoseconds per millisecond.
pub const NS_PER_MS: u64 = 1_000_000;

/// Index of the first span of trace `tid` that has no parent.
pub open spec fn root_index(spans: Seq<SpanView>, tid: Seq<char>) -> Option<int>
    decreases spans.len(),
{
    if spans.len() == 0 {
        None
    } else {
        match root_index(spans.drop_last(), tid) {
            Some(i) => Some(i),
            None => if spans.last().trace_id == tid && spans.last().parent_span_id is None {
                Some(spans.len() - 1)
            } else {
                None
            },
        }
    }
}

/// Some span of trace `tid` has status `error`.
pub open spec fn trace_has_error(spans: Seq<SpanView>, tid: Seq<char>) -> bool {
    exists|j: int| 0 <= j < spans.len() && spans[j].trace_id == tid && spans[j].status == "error"@
}

/// Duration of the root of trace `tid`; zero when it has no root.
pub open spec fn root_duration(spans: Seq<SpanView>, tid: Seq<char>) -> u64 {
    match root_index(spans, tid) {
        Some(i) => span_duration(spans[i]),
        None => 0,
    }
}

/// The text whose hash decides a trace: its root's trace id, or the empty text when it has no root.
pub open spec fn sample_seed(spans: Seq<SpanView>, tid: Seq<char>) -> Seq<char> {
    if root_index(spans, tid) is Some {
        tid
    } else {
        Seq::empty()
    }
}

/// Sampling bucket of a seed: its FNV-1a hash modulo `SAMPLE_BUCKETS`.
pub open spec fn bucket_of(seed: Seq<char>) -> u64 {
    fnv1a(encode_utf8(seed)) % SAMPLE_BUCKETS
}

/// Whether sampling keeps trace `tid`.
pub open spec fn keeps_trace(spans: Seq<SpanView>, tid: Seq<char>, keep_below: u64, slow_ms: u64) -> bool {
    ||| trace_has_error(spans, tid)
    ||| root_duration(spans, tid) as int >= slow_ms as int * NS_PER_MS as int
    ||| bucket_of(sample_seed(spans, tid)) < keep_below
}

/// The spans sampling keeps, in their original order.
pub open spec fn sampled_spans(spans: Seq<SpanView>, keep_below: u64, slow_ms: u64) -> Seq<SpanView> {
    spans.filter(keep_pred(spans, keep_below, slow_ms))
}

/// Whether a span's trace is kept, as a predicate on spans.
pub open spec fn keep_pred(spans: Seq<SpanView>, keep_below: u64, slow_ms: u64) -> spec_fn(SpanView) -> bool {
    |s: SpanView| keeps_trace(spans, s.trace_id, keep_below, slow_ms)
}

/// Sampling bucket of `seed`.
pub fn sample_bucket(seed: &str) -> (b: u64)
    ensures
        b == bucket_of(seed@),
        b < SAMPLE_BUCKETS,
{
    simple_hash(seed) % SAMPLE_BUCKETS
}

/// Deterministic per-trace draw: keep when the seed's bucket falls below `keep_below`.
pub fn rand_keep(keep_below: u64, seed: &str) -> (keep: bool)
    ensures
        keep == (bucket_of(seed@) < keep_below),
{
    sample_bucket(seed) < keep_below
}

/// Decide trace `tid`: error anywhere, slow root, or a bucket below `keep_below`.
pub fn decide_trace(spans: &Vec<Span>, tid: &String, keep_below: u64, slow_ms: u64) -> (keep: bool)
    ensures
        keep == keeps_trace(spans_view(spans@), tid@, keep_below, slow_ms),
{
    let ghost all = spans_view(spans@);
    let mut has_error = false;
    let mut root: Option<usize> = None;
    let mut j: usize = 0;
    while j < spans.len()
        invariant
            j <= spans.len(),
            all == spans_view(spans@),
            has_error <==> exists|k: int| 0 <= k < j && all[k].trace_id == tid@ && all[k].status == "error"@,
            match root {
                Some(r) => root_index(all.take(j as int), tid@) == Some(r as int) && r < j,
                None => root_index(all.take(j as int), tid@) is None,
            },
        decreases spans.len() - j,
    {
        assert(all.take(j + 1).drop_last() =~= all.take(j as int));
        let same = spans[j].trace_id == *tid;
        if same && eq_str(&spans[j].status, "error") {
            has_error = true;
        }
        if root.is_none() && same && spans[j].parent_span_id.is_none() {
            root = Some(j);
        }
        j = j + 1;
    }
    assert(all.take(j as int) =~= all);
    let slow = match root {
        Some(r) => {
            let s = &spans[r];
            let d: u64 = if s.end_time_unix_ns >= s.start_time_unix_ns {
                s.end_time_unix_ns - s.start_time_unix_ns
            } else {
                0
            };
            (d as u128) >= (slow_ms as u128) * (NS_PER_MS as u128)
        },
        None => 0u128 >= (slow_ms as u128) * (NS_PER_MS as u128),
    };
    if has_error || slow {
        return true;
    }
    proof {
        if root is None {
            assert(""@ =~= Seq::<char>::empty()) by {
                reveal_strlit("");
            }
        }
    }
    match root {
        Some(_) => rand_keep(keep_below, tid.as_str()),
        None => rand_keep(keep_below, ""),
    }
}

fn cached_decision(ids: &Vec<String>, keeps: &Vec<bool>, tid: &String) -> (r: Option<bool>)
    requires
        ids.len() == keeps.len(),
    ensures
        match r {
            Some(b) => exists|c: int|
                0 <= c < ids.len() && ids@[c]@ == tid@ && keeps@[c] == b && forall|k: int|
                    0 <= k < c ==> (#[trigger] ids@[k])@ != tid@,
            None => forall|c: int| 0 <= c < ids.len() ==> (#[trigger] ids@[c])@ != tid@,
        },
{
    let mut c: usize = 0;
    while c < ids.len()
        invariant
            c <= ids.len(),
            ids.len() == keeps.len(),
            forall|k: int| 0 <= k < c ==> (#[trigger] ids@[k])@ != tid@,
        decreases ids.len() - c,
    {
        if ids[c] == *tid {
            return Some(keeps[c]);
        }
        c = c + 1;
    }
    None
}

/// Keep whole traces that are errors, slow, or whose bucket falls below
/// `keep_below` (out of `SAMPLE_BUCKETS`); drop the rest. Returns the batch
/// and the number of spans dropped. The spans kept stay in their order.
pub fn sample_batch(batch: TraceBatch, keep_below: u64, slow_ms: u64) -> (r: (TraceBatch, usize))
    ensures
        r.0@.protocol_version == batch@.protocol_version,
        r.0@.sdk == batch@.sdk,
        r.0@.resource == batch@.resource,
        r.0@.spans == sampled_spans(batch@.spans, keep_below, slow_ms),
        r.1 == batch@.spans.len() - r.0@.spans.len(),
{
    let TraceBatch { protocol_version, sdk, resource, spans } = batch;
    let ghost all = spans_view(spans@);
    let ghost pred = keep_pred(all, keep_below, slow_ms);
    let mut ids: Vec<String> = Vec::new();
    let mut keeps: Vec<bool> = Vec::new();
    let mut flags: Vec<bool> = Vec::new();
    let mut i: usize = 0;
    while i < spans.len()
        invariant
            i <= spans.len(),
            all == spans_view(spans@),
            pred == keep_pred(all, keep_below, slow_ms),
            flags.len() == i,
            forall|k: int| 0 <= k < i ==> flags@[k] == pred(#[trigger] all[k]),
            ids.len() == keeps.len(),
            forall|c: int| 0 <= c < ids.len() ==> keeps@[c] == keeps_trace(all, #[trigger] ids@[c]@, keep_below, slow_ms),
        decreases spans.len() - i,
    {
        let keep = match cached_decision(&ids, &keeps, &spans[i].trace_id) {
            Some(b) => {
                proof {
                    let c = choose|c: int| 0 <= c < ids.len() && ids@[c]@ == spans@[i as int].trace_id@ && keeps@[c] == b;
                    assert(keeps@[c] == keeps_trace(all, ids@[c]@, keep_below, slow_ms));
                    assert(b == keeps_trace(all, spans@[i as int].trace_id@, keep_below, slow_ms));
                }
                b
            },
            None => {
                let b = decide_trace(&spans, &spans[i].trace_id, keep_below, slow_ms);
                ids.push(spans[i].trace_id.clone());
                keeps.push(b);
                assert(b == keeps_trace(all, spans@[i as int].trace_id@, keep_below, slow_ms));
                b
            },
        };
        assert(all[i as int].trace_id == spans@[i as int].trace_id@);
        assert(keep == pred(all[i as int]));
        let ghost old_flags = flags@;
        flags.push(keep);
        assert(forall|k: int| 0 <= k < i ==> flags@[k] == old_flags[k]);
        i = i + 1;
    }
    let mut kept: Vec<Span> = Vec::new();
    let mut dropped: usize = 0;
    let mut idx: usize = 0;
    for s in it: spans.into_iter()
        invariant
            it.seq() == spans@,
            all == spans_view(spans@),
            idx == it.index(),
            pred == keep_pred(all, keep_below, slow_ms),
            flags.len() == spans.len(),
            forall|k: int| 0 <= k < spans.len() ==> flags@[k] == pred(#[trigger] all[k]),
            spans_view(kept@) == all.take(idx as int).filter(pred),
            dropped + kept.len() == idx,
    {
        let ghost before = kept@;
        proof {
            assert(all.take(idx + 1) =~= all.take(idx as int).push(all[idx as int]));
            all.take(idx as int).lemma_filter_push(all[idx as int], pred);
            assert(s@ == all[idx as int]);
        }
        if flags[idx] {
            kept.push(s);
            assert(spans_view(kept@) =~= spans_view(before).push(all[idx as int]));
        } else {
            dropped = dropped + 1;
        }
        idx = idx + 1;
    }
    assert(all.take(idx as int) =~= all);
    (TraceBatch { protocol_version, sdk, resource, spans: kept }, dropped)
}

/// Resource of the health-check endpoint whose traces are dropped.
pub open spec fn noise_resource() -> Seq<char> {
    "HealthController#show"@
}

/// A root span of the health-check endpoint.
pub open spec fn is_noise_root(s: SpanView) -> bool {
    s.parent_span_id is None && s.resource == Some(noise_resource())
}

/// Trace `tid` has a health-check root.
pub open spec fn noise_trace(spans: Seq<SpanView>, tid: Seq<char>) -> bool {
    exists|j: int| 0 <= j < spans.len() && is_noise_root(spans[j]) && spans[j].trace_id == tid
}

pub open spec fn noise_pred(spans: Seq<SpanView>) -> spec_fn(SpanView) -> bool {
    |s: SpanView| !noise_trace(spans, s.trace_id)
}

/// The spans left once health-check traces are removed, in their order.
pub open spec fn denoised_spans(spans: Seq<SpanView>) -> Seq<SpanView> {
    spans.filter(noise_pred(spans))
}

fn contains_id(ids: &Vec<String>, tid: &String) -> (r: bool)
    ensures
        r == exists|c: int| 0 <= c < ids.len() && (#[trigger] ids@[c])@ == tid@,
{
    let mut c: usize = 0;
    while c < ids.len()
        invariant
            c <= ids.len(),
            forall|k: int| 0 <= k < c ==> (#[trigger] ids@[k])@ != tid@,
        decreases ids.len() - c,
    {
        if ids[c] == *tid {
            return true;
        }
        c = c + 1;
    }
    false
}

/// Drop every trace whose root (a span without parent) is the health-check
/// endpoint, together with all its other spans.
pub fn filter_noise(batch: TraceBatch) -> (r: TraceBatch)
    ensures
        r@.protocol_version == batch@.protocol_version,
        r@.sdk == batch@.sdk,
        r@.resource == batch@.resource,
        r@.spans == denoised_spans(batch@.spans),
{
    let TraceBatch { protocol_version, sdk, resource, spans } = batch;
    let ghost all = spans_view(spans@);
    let ghost pred = noise_pred(all);
    let mut drop_ids: Vec<String> = Vec::new();
    let mut i: usize = 0;
    while i < spans.len()
        invariant
            i <= spans.len(),
            all == spans_view(spans@),
            forall|c: int| 0 <= c < drop_ids.len() ==> noise_trace(all, (#[trigger] drop_ids@[c])@),
            forall|j: int| 0 <= j < i && is_noise_root(#[trigger] all[j]) ==>
                exists|c: int| 0 <= c < drop_ids.len() && (#[trigger] drop_ids@[c])@ == all[j].trace_id,
        decreases spans.len() - i,
    {
        let s = &spans[i];
        let ghost old_ids = drop_ids@;
        if s.parent_span_id.is_none() {
            if let Some(r) = &s.resource {
                if eq_str(r, "HealthController#show") {
                    proof {
                        assert(is_noise_root(all[i as int]));
                    }
                    drop_ids.push(s.trace_id.clone());
                    assert(drop_ids@[drop_ids.len() - 1]@ == all[i as int].trace_id);
                }
            }
        }
        proof {
            assert forall|j: int| 0 <= j < i + 1 && is_noise_root(#[trigger] all[j]) implies
                exists|c: int| 0 <= c < drop_ids.len() && (#[trigger] drop_ids@[c])@ == all[j].trace_id by {
                if j < i {
                    let c = choose|c: int| 0 <= c < old_ids.len() && (#[trigger] old_ids[c])@ == all[j].trace_id;
                    assert(drop_ids@[c] == old_ids[c]);
                } else {
                    assert(drop_ids@[drop_ids.len() - 1]@ == all[i as int].trace_id);
                }
            }
        }
        i = i + 1;
    }
    let mut kept: Vec<Span> = Vec::new();
    let mut idx: usize = 0;
    let n = spans.len();
    for s in it: spans.into_iter()
        invariant
            it.seq() == spans@,
            all == spans_view(spans@),
            idx == it.index(),
            n == spans@.len(),
            pred == noise_pred(all),
            forall|c: int| 0 <= c < drop_ids.len() ==> noise_trace(all, (#[trigger] drop_ids@[c])@),
            forall|j: int| 0 <= j < all.len() && is_noise_root(#[trigger] all[j]) ==>
                exists|c: int| 0 <= c < drop_ids.len() && (#[trigger] drop_ids@[c])@ == all[j].trace_id,
            spans_view(kept@) == all.take(idx as int).filter(pred),
    {
        let ghost before = kept@;
        proof {
            assert(all.take(idx + 1) =~= all.take(idx as int).push(all[idx as int]));
            all.take(idx as int).lemma_filter_push(all[idx as int], pred);
            assert(s@ == all[idx as int]);
        }
        let dropped = contains_id(&drop_ids, &s.trace_id);
        proof {
            if dropped {
                let c = choose|c: int| 0 <= c < drop_ids.len() && (#[trigger] drop_ids@[c])@ == s.trace_id@;
                assert(noise_trace(all, drop_ids@[c]@));
                assert(!pred(s@));
            } else {
                if noise_trace(all, s.trace_id@) {
                    let j = choose|j: int| 0 <= j < all.len() && is_noise_root(all[j]) && all[j].trace_id == s.trace_id@;
                    assert(is_noise_root(all[j]));
                    assert(false);
                }
                assert(pred(s@));
            }
        }
        if !dropped {
            kept.push(s);
            assert(spans_view(kept@) =~= spans_view(before).push(all[idx as int]));
        }
        idx = idx + 1;
    }
    assert(all.take(idx as int) =~= all);
    TraceBatch { protocol_version, sdk, resource, spans: kept }
}

/// Spans of trace `tid`, as a predicate.
pub open spec fn same_trace(tid: Seq<char>) -> spec_fn(SpanView) -> bool {
    |s: SpanView| s.trace_id == tid
}

proof fn lemma_filter_filter<A>(s: Seq<A>, p: spec_fn(A) -> bool, q: spec_fn(A) -> bool)
    ensures
        s.filter(p).filter(q) == s.filter(|x: A| p(x) && q(x)),
    decreases s.len(),
{
    reveal(Seq::filter);
    if s.len() > 0 {
        lemma_filter_filter(s.drop_last(), p, q);
        s.drop_last().filter(p).lemma_filter_push(s.last(), q);
    }
}

proof fn lemma_filter_subset<A>(s: Seq<A>, p: spec_fn(A) -> bool, i: int)
    requires
        0 <= i < s.filter(p).len(),
    ensures
        s.contains(s.filter(p)[i]),
    decreases s.len(),
{
    reveal(Seq::filter);
    if s.len() > 0 {
        let sub = s.drop_last().filter(p);
        if i < sub.len() {
            lemma_filter_subset(s.drop_last(), p, i);
            let k = choose|k: int| 0 <= k < s.drop_last().len() && s.drop_last()[k] == sub[i];
            assert(s[k] == s.filter(p)[i]);
        } else {
            assert(s[s.len() - 1] == s.filter(p)[i]);
        }
    }
}

proof fn lemma_filter_all<A>(s: Seq<A>, p: spec_fn(A) -> bool)
    requires
        forall|i: int| 0 <= i < s.len() ==> p(#[trigger] s[i]),
    ensures
        s.filter(p) == s,
    decreases s.len(),
{
    reveal(Seq::filter);
    if s.len() > 0 {
        lemma_filter_all(s.drop_last(), p);
        assert(s.drop_last().push(s.last()) =~= s);
    }
}

proof fn lemma_filter_none<A>(s: Seq<A>, p: spec_fn(A) -> bool)
    requires
        forall|i: int| 0 <= i < s.len() ==> !p(#[trigger] s[i]),
    ensures
        s.filter(p) == Seq::<A>::empty(),
    decreases s.len(),
{
    reveal(Seq::filter);
    if s.len() > 0 {
        lemma_filter_none(s.drop_last(), p);
    }
}

proof fn lemma_filter_same_on<A>(s: Seq<A>, p: spec_fn(A) -> bool, q: spec_fn(A) -> bool)
    requires
        forall|i: int| 0 <= i < s.len() ==> p(#[trigger] s[i]) == q(s[i]),
    ensures
        s.filter(p) == s.filter(q),
    decreases s.len(),
{
    reveal(Seq::filter);
    if s.len() > 0 {
        lemma_filter_same_on(s.drop_last(), p, q);
    }
}

/// Law: sampling keeps or drops a trace whole. The spans of trace `tid` that
/// sampling keeps are all its spans when the trace is kept, and none otherwise.
pub proof fn law_sample_whole_traces(spans: Seq<SpanView>, keep_below: u64, slow_ms: u64, tid: Seq<char>)
    ensures
        sampled_spans(spans, keep_below, slow_ms).filter(same_trace(tid)) == if keeps_trace(
            spans,
            tid,
            keep_below,
            slow_ms,
        ) {
            spans.filter(same_trace(tid))
        } else {
            Seq::<SpanView>::empty()
        },
{
    let p = keep_pred(spans, keep_below, slow_ms);
    let q = same_trace(tid);
    lemma_filter_filter(spans, p, q);
    let pq = |x: SpanView| p(x) && q(x);
    if keeps_trace(spans, tid, keep_below, slow_ms) {
        lemma_filter_same_on(spans, pq, q);
    } else {
        lemma_filter_none(spans, pq);
    }
}

/// Law: a trace with an error span survives sampling whole.
pub proof fn law_sample_keeps_errors(spans: Seq<SpanView>, keep_below: u64, slow_ms: u64, tid: Seq<char>)
    requires
        trace_has_error(spans, tid),
    ensures
        sampled_spans(spans, keep_below, slow_ms).filter(same_trace(tid)) == spans.filter(same_trace(tid)),
{
    law_sample_whole_traces(spans, keep_below, slow_ms, tid);
}

/// Law: a trace whose root lasts at least `slow_ms` milliseconds survives sampling whole.
pub proof fn law_sample_keeps_slow(spans: Seq<SpanView>, keep_below: u64, slow_ms: u64, tid: Seq<char>)
    requires
        root_duration(spans, tid) as int >= slow_ms as int * NS_PER_MS as int,
    ensures
        sampled_spans(spans, keep_below, slow_ms).filter(same_trace(tid)) == spans.filter(same_trace(tid)),
{
    law_sample_whole_traces(spans, keep_below, slow_ms, tid);
}

/// Law: with a keep threshold covering every bucket, sampling keeps every span.
pub proof fn law_sample_full_rate_keeps_all(spans: Seq<SpanView>, keep_below: u64, slow_ms: u64)
    requires
        keep_below >= SAMPLE_BUCKETS,
    ensures
        sampled_spans(spans, keep_below, slow_ms) == spans,
{
    lemma_filter_all(spans, keep_pred(spans, keep_below, slow_ms));
}

/// Law: sampling never adds spans; it keeps at most the spans it received.
pub proof fn law_sample_conserves(spans: Seq<SpanView>, keep_below: u64, slow_ms: u64)
    ensures
        sampled_spans(spans, keep_below, slow_ms).len() <= spans.len(),
{
    spans.lemma_filter_len(keep_pred(spans, keep_below, slow_ms));
}

/// Law: removing health-check traces is idempotent.
pub proof fn law_filter_noise_idempotent(spans: Seq<SpanView>)
    ensures
        denoised_spans(denoised_spans(spans)) == denoised_spans(spans),
{
    let once = denoised_spans(spans);
    #[allow(deprecated)]
    spans.filter_lemma(noise_pred(spans));
    assert forall|i: int| 0 <= i < once.len() implies #[trigger] noise_pred(once)(once[i]) by {
        assert(noise_pred(spans)(once[i]));
        if noise_trace(once, once[i].trace_id) {
            let j = choose|j: int| 0 <= j < once.len() && is_noise_root(once[j]) && once[j].trace_id == once[i].trace_id;
            assert(noise_pred(spans)(once[j]));
            lemma_filter_subset(spans, noise_pred(spans), j);
            let k = choose|k: int| 0 <= k < spans.len() && spans[k] == once[j];
            assert(noise_trace(spans, once[j].trace_id));
            assert(false);
        }
    }
    lemma_filter_all(once, noise_pred(once));
}

} // verus!
