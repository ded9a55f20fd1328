//! What ingesting a batch writes: one trace record per trace, one record per
//! span, and the N+1 events found among a trace's SQL spans.

use vstd::prelude::*;
use vstd::utf8::{decode_utf8, encode_utf8, is_char_boundary, valid_utf8};
use crate::protocol::{
    as_str, attrs_view, lookup, opt_view, span_duration, spans_view, AttrValue, AttrValueView, Span,
    SpanView, TraceBatch,
};
use crate::text::{decimal, eq_str, fnv1a, simple_hash, trunc, truncate, u64_to_decimal};
use vstd::string::*;

verus! {

/// The spans of a batch picked by a list of indices.
pub open spec fn pick(spans: Seq<SpanView>, idx: Seq<usize>) -> Seq<SpanView> {
    idx.map_values(|i: usize| spans[i as int])
}

/// Index of the first element of `g` that satisfies `p`.
pub open spec fn first_where(g: Seq<SpanView>, p: spec_fn(SpanView) -> bool) -> Option<int>
    decreases g.len(),
{
    if g.len() == 0 {
        None
    } else {
        match first_where(g.drop_last(), p) {
            Some(i) => Some(i),
            None => if p(g.last()) {
                Some(g.len() - 1)
            } else {
                None
            },
        }
    }
}

pub open spec fn has_no_parent() -> spec_fn(SpanView) -> bool {
    |s: SpanView| s.parent_span_id is None
}

pub open spec fn is_entry_kind() -> spec_fn(SpanView) -> bool {
    |s: SpanView| s.kind == "http.server"@ || s.kind == "job"@
}

/// Index of the longest span of `g`; among equally long ones, the last.
pub open spec fn last_longest(g: Seq<SpanView>) -> int
    decreases g.len(),
{
    if g.len() <= 1 {
        0
    } else {
        let m = last_longest(g.drop_last());
        if span_duration(g.last()) >= span_duration(g[m]) {
            g.len() - 1
        } else {
            m
        }
    }
}

/// The root of a trace: its first span without parent; else its first
/// `http.server` or `job` span; else its longest span (the last of equals).
pub open spec fn selected_root(g: Seq<SpanView>) -> int {
    match first_where(g, has_no_parent()) {
        Some(i) => i,
        None => match first_where(g, is_entry_kind()) {
            Some(i) => i,
            None => last_longest(g),
        },
    }
}

proof fn lemma_first_where_bound(g: Seq<SpanView>, p: spec_fn(SpanView) -> bool)
    ensures
        first_where(g, p) matches Some(i) ==> 0 <= i < g.len() && p(g[i]),
    decreases g.len(),
{
    if g.len() > 0 {
        lemma_first_where_bound(g.drop_last(), p);
    }
}

proof fn lemma_last_longest_bound(g: Seq<SpanView>)
    ensures
        g.len() > 0 ==> 0 <= last_longest(g) < g.len(),
    decreases g.len(),
{
    if g.len() > 1 {
        lemma_last_longest_bound(g.drop_last());
    }
}

pub proof fn lemma_selected_root_bound(g: Seq<SpanView>)
    requires
        g.len() > 0,
    ensures
        0 <= selected_root(g) < g.len(),
{
    lemma_first_where_bound(g, has_no_parent());
    lemma_first_where_bound(g, is_entry_kind());
    lemma_last_longest_bound(g);
}

fn duration_of(s: &Span) -> (d: u64)
    ensures
        d == span_duration(s@),
{
    if s.end_time_unix_ns >= s.start_time_unix_ns {
        s.end_time_unix_ns - s.start_time_unix_ns
    } else {
        0
    }
}

/// Position in `idx` of the root of the trace made of `spans[idx[..]]`;
/// `None` when `idx` picks no span.
pub fn select_root(spans: &Vec<Span>, idx: &Vec<usize>) -> (r: Option<usize>)
    requires
        forall|k: int| 0 <= k < idx.len() ==> (#[trigger] idx@[k]) < spans.len(),
    ensures
        r == if idx.len() == 0 {
            None::<usize>
        } else {
            Some(selected_root(pick(spans_view(spans@), idx@)) as usize)
        },
        r matches Some(i) ==> i < idx.len(),
{
    if idx.len() == 0 {
        return None;
    }
    let ghost g = pick(spans_view(spans@), idx@);
    let mut orphan: Option<usize> = None;
    let mut entry: Option<usize> = None;
    let mut longest: usize = 0;
    let mut k: usize = 0;
    while k < idx.len()
        invariant
            k <= idx.len(),
            g == pick(spans_view(spans@), idx@),
            forall|m: int| 0 <= m < idx.len() ==> (#[trigger] idx@[m]) < spans.len(),
            orphan == (match first_where(g.take(k as int), has_no_parent()) { Some(i) => Some(i as usize), None => None::<usize> }),
            entry == (match first_where(g.take(k as int), is_entry_kind()) { Some(i) => Some(i as usize), None => None::<usize> }),
            k > 0 ==> longest as int == last_longest(g.take(k as int)),
            k > 0 ==> longest < k,
        decreases idx.len() - k,
    {
        let s = &spans[idx[k]];
        proof {
            let gk = g.take(k + 1);
            assert(gk.drop_last() =~= g.take(k as int));
            assert(gk.last() == s@);
            lemma_first_where_bound(g.take(k as int), has_no_parent());
            lemma_first_where_bound(g.take(k as int), is_entry_kind());
            if k > 0 {
                assert(gk[longest as int] == g[longest as int]);
            }
        }
        if orphan.is_none() && s.parent_span_id.is_none() {
            orphan = Some(k);
        }
        if entry.is_none() && (eq_str(&s.kind, "http.server") || eq_str(&s.kind, "job")) {
            entry = Some(k);
        }
        if k == 0 || duration_of(s) >= duration_of(&spans[idx[longest]]) {
            longest = k;
        }
        k = k + 1;
    }
    assert(g.take(k as int) =~= g);
    proof {
        lemma_first_where_bound(g, has_no_parent());
        lemma_first_where_bound(g, is_entry_kind());
    }
    match orphan {
        Some(i) => Some(i),
        None => match entry {
            Some(i) => Some(i),
            None => Some(longest),
        },
    }
}

/// Characters of a fingerprint kept on an N+1 event.
pub const MAX_FINGERPRINT_CHARS: usize = 1024;

pub open spec fn is_sql(s: SpanView) -> bool {
    s.kind == "sql"@
}

/// The text by which repeated SQL is recognized: the span's resource, else its
/// `db.statement` string attribute, else its name.
pub open spec fn fingerprint(s: SpanView) -> Seq<char> {
    match s.resource {
        Some(r) => r,
        None => match as_str(lookup(s.attributes, "db.statement"@)) {
            Some(t) => t,
            None => s.name,
        },
    }
}

/// Number of SQL spans of `g` with fingerprint `fp`.
pub open spec fn fp_count(g: Seq<SpanView>, fp: Seq<char>) -> nat
    decreases g.len(),
{
    if g.len() == 0 {
        0
    } else {
        fp_count(g.drop_last(), fp) + if is_sql(g.last()) && fingerprint(g.last()) == fp {
            1nat
        } else {
            0nat
        }
    }
}

/// Sum of the durations of the SQL spans of `g` with fingerprint `fp`, each as
/// an `i64`, wrapping on overflow.
pub open spec fn fp_total(g: Seq<SpanView>, fp: Seq<char>) -> i64
    decreases g.len(),
{
    if g.len() == 0 {
        0
    } else if is_sql(g.last()) && fingerprint(g.last()) == fp {
        fp_total(g.drop_last(), fp).wrapping_add(span_duration(g.last()) as i64)
    } else {
        fp_total(g.drop_last(), fp)
    }
}

/// The fingerprints of the SQL spans of `g`, each once, in order of first appearance.
pub open spec fn distinct_fps(g: Seq<SpanView>) -> Seq<Seq<char>>
    decreases g.len(),
{
    if g.len() == 0 {
        Seq::empty()
    } else {
        let d = distinct_fps(g.drop_last());
        if is_sql(g.last()) && !d.contains(fingerprint(g.last())) {
            d.push(fingerprint(g.last()))
        } else {
            d
        }
    }
}

/// The largest character boundary of `bytes` at or below `n` (zero when there is none above it).
pub open spec fn boundary_at_or_below(bytes: Seq<u8>, n: int) -> int
    decreases n,
{
    if n <= 0 {
        0
    } else if is_char_boundary(bytes, n) {
        n
    } else {
        boundary_at_or_below(bytes, n - 1)
    }
}

/// Byte length at which a trace id is cut for an event id: at most twelve
/// bytes, moved down to the nearest character boundary.
pub open spec fn id_cut(tid: Seq<char>) -> int {
    let bytes = encode_utf8(tid);
    boundary_at_or_below(bytes, if bytes.len() < 12 { bytes.len() as int } else { 12 })
}

proof fn lemma_boundary_at_or_below(bytes: Seq<u8>, n: int)
    requires
        valid_utf8(bytes),
    ensures
        0 <= boundary_at_or_below(bytes, n),
        n >= 0 ==> boundary_at_or_below(bytes, n) <= n,
        is_char_boundary(bytes, boundary_at_or_below(bytes, n)),
    decreases n,
{
    if n > 0 && !is_char_boundary(bytes, n) {
        lemma_boundary_at_or_below(bytes, n - 1);
    }
}

/// Id of the N+1 event of fingerprint `fp` in trace `tid`: `n1_`, the trace
/// id cut to at most twelve bytes on a character boundary, `_`, the decimal
/// FNV-1a hash of the fingerprint.
pub open spec fn n1_id(tid: Seq<char>, fp: Seq<char>) -> Seq<char> {
    "n1_"@ + decode_utf8(encode_utf8(tid).take(id_cut(tid))) + "_"@ + decimal(fnv1a(encode_utf8(fp)) as nat)
}

/// An integer attribute value (one that fits an `i64`).
pub open spec fn int_of(v: Option<AttrValueView>) -> Option<i64> {
    match v {
        Some(AttrValueView::Int(i)) => Some(i),
        _ => None,
    }
}

/// Where in application code a span was started.
pub struct CodeLocationView {
    pub filepath: Seq<char>,
    pub lineno: Option<i64>,
    pub function: Option<Seq<char>>,
}

/// The location a span records: a non-empty `code.filepath`, with `code.lineno`
/// and `code.function` where present.
pub open spec fn location_of(s: SpanView) -> Option<CodeLocationView> {
    match as_str(lookup(s.attributes, "code.filepath"@)) {
        Some(f) => if f.len() > 0 {
            Some(
                CodeLocationView {
                    filepath: f,
                    lineno: int_of(lookup(s.attributes, "code.lineno"@)),
                    function: as_str(lookup(s.attributes, "code.function"@)),
                },
            )
        } else {
            None
        },
        None => None,
    }
}

/// The first location recorded among the SQL spans of `g` with fingerprint `fp`.
pub open spec fn fp_location(g: Seq<SpanView>, fp: Seq<char>) -> Option<CodeLocationView>
    decreases g.len(),
{
    if g.len() == 0 {
        None
    } else {
        match fp_location(g.drop_last(), fp) {
            Some(l) => Some(l),
            None => if is_sql(g.last()) && fingerprint(g.last()) == fp {
                location_of(g.last())
            } else {
                None
            },
        }
    }
}

/// A repeated SQL statement within one trace.
#[derive(Debug, Clone, PartialEq, Eq)]
pub struct NPlusOneEvent {
    pub id: String,
    pub trace_id: String,
    pub root_resource: Option<String>,
    pub sql_fingerprint: String,
    pub repeat_count: u32,
    pub total_duration_ns: i64,
    pub detected_at_ns: i64,
    /// File of the first recorded location of the statement.
    pub code_filepath: Option<String>,
    pub code_lineno: Option<i64>,
    pub code_function: Option<String>,
}

pub struct NPlusOneEventView {
    pub id: Seq<char>,
    pub trace_id: Seq<char>,
    pub root_resource: Option<Seq<char>>,
    pub sql_fingerprint: Seq<char>,
    pub repeat_count: u32,
    pub total_duration_ns: i64,
    pub detected_at_ns: i64,
    pub code_filepath: Option<Seq<char>>,
    pub code_lineno: Option<i64>,
    pub code_function: Option<Seq<char>>,
}

impl View for NPlusOneEvent {
    type V = NPlusOneEventView;

    open spec fn view(&self) -> NPlusOneEventView {
        NPlusOneEventView {
            id: self.id@,
            trace_id: self.trace_id@,
            root_resource: opt_view(self.root_resource),
            sql_fingerprint: self.sql_fingerprint@,
            repeat_count: self.repeat_count,
            total_duration_ns: self.total_duration_ns,
            detected_at_ns: self.detected_at_ns,
            code_filepath: opt_view(self.code_filepath),
            code_lineno: self.code_lineno,
            code_function: opt_view(self.code_function),
        }
    }
}

pub open spec fn n1_event(
    tid: Seq<char>,
    root_resource: Option<Seq<char>>,
    g: Seq<SpanView>,
    fp: Seq<char>,
    detected_at: i64,
) -> NPlusOneEventView {
    NPlusOneEventView {
        id: n1_id(tid, fp),
        trace_id: tid,
        root_resource: root_resource,
        sql_fingerprint: trunc(fp, MAX_FINGERPRINT_CHARS as nat),
        repeat_count: fp_count(g, fp) as u32,
        total_duration_ns: fp_total(g, fp),
        detected_at_ns: detected_at,
        code_filepath: match fp_location(g, fp) {
            Some(l) => Some(l.filepath),
            None => None,
        },
        code_lineno: match fp_location(g, fp) {
            Some(l) => l.lineno,
            None => None,
        },
        code_function: match fp_location(g, fp) {
            Some(l) => l.function,
            None => None,
        },
    }
}

pub open spec fn reaches_threshold(g: Seq<SpanView>, threshold: u32) -> spec_fn(Seq<char>) -> bool {
    |fp: Seq<char>| fp_count(g, fp) >= threshold
}

/// The fingerprints of a trace repeated at least `threshold` times, in order of first appearance.
pub open spec fn n1_fps(g: Seq<SpanView>, threshold: u32) -> Seq<Seq<char>> {
    distinct_fps(g).filter(reaches_threshold(g, threshold))
}

/// The N+1 events of a trace: one per fingerprint repeated at least `threshold`
/// times, in order of the fingerprint's first appearance.
pub open spec fn n1_events(
    tid: Seq<char>,
    root_resource: Option<Seq<char>>,
    g: Seq<SpanView>,
    threshold: u32,
    detected_at: i64,
) -> Seq<NPlusOneEventView> {
    distinct_fps(g).filter(reaches_threshold(g, threshold)).map_values(
        |fp: Seq<char>| n1_event(tid, root_resource, g, fp, detected_at),
    )
}

proof fn lemma_fp_count_bound(g: Seq<SpanView>, fp: Seq<char>)
    ensures
        fp_count(g, fp) <= g.len(),
    decreases g.len(),
{
    if g.len() > 0 {
        lemma_fp_count_bound(g.drop_last(), fp);
    }
}

proof fn lemma_count_means_listed(g: Seq<SpanView>, fp: Seq<char>)
    ensures
        fp_count(g, fp) > 0 ==> distinct_fps(g).contains(fp),
        !distinct_fps(g).contains(fp) ==> fp_total(g, fp) == 0,
    decreases g.len(),
{
    if g.len() > 0 {
        lemma_count_means_listed(g.drop_last(), fp);
        let d = distinct_fps(g.drop_last());
        if is_sql(g.last()) && !d.contains(fingerprint(g.last())) {
            assert(d.push(fingerprint(g.last())).last() == fingerprint(g.last()));
            if d.contains(fp) {
                let i = choose|i: int| 0 <= i < d.len() && d[i] == fp;
                assert(d.push(fingerprint(g.last()))[i] == fp);
            }
        }
    }
}

proof fn lemma_distinct_fps_unique(g: Seq<SpanView>)
    ensures
        distinct_fps(g).no_duplicates(),
    decreases g.len(),
{
    if g.len() > 0 {
        lemma_distinct_fps_unique(g.drop_last());
    }
}

fn fingerprint_of(s: &Span) -> (fp: String)
    ensures
        fp@ == fingerprint(s@),
{
    match &s.resource {
        Some(r) => r.clone(),
        None => match crate::protocol::find_attr(&s.attributes, "db.statement") {
            Some(i) => match &s.attributes[i].value {
                AttrValue::Str(t) => t.clone(),
                _ => s.name.clone(),
            },
            None => s.name.clone(),
        },
    }
}

fn clone_opt(o: &Option<String>) -> (r: Option<String>)
    ensures
        opt_view(r) == opt_view(*o),
{
    match o {
        Some(s) => Some(s.clone()),
        None => None,
    }
}

/// Id of the N+1 event of fingerprint `fp` in trace `trace_id`.
pub fn n1_event_id(trace_id: &str, fp: &str) -> (id: String)
    ensures
        id@ == n1_id(trace_id@, fp@),
{
    broadcast use vstd::utf8::encode_utf8_decode_utf8;
    broadcast use vstd::utf8::encode_utf8_valid_utf8;
    let ghost bytes = encode_utf8(trace_id@);
    let n = trace_id.as_bytes().len();
    let mut cut = if n < 12 { n } else { 12 };
    let ghost start = cut as int;
    while cut > 0 && !trace_id.is_char_boundary(cut)
        invariant
            cut <= start,
            bytes == encode_utf8(trace_id@),
            boundary_at_or_below(bytes, cut as int) == boundary_at_or_below(bytes, start),
        decreases cut,
    {
        cut = cut - 1;
    }
    proof {
        assert(boundary_at_or_below(bytes, cut as int) == cut as int);
        assert(cut as int == id_cut(trace_id@));
        lemma_boundary_at_or_below(bytes, start);
    }
    let (head, _tail) = trace_id.split_at(cut);
    proof {
        assert(encode_utf8(trace_id@).subrange(0, cut as int) =~= encode_utf8(trace_id@).take(cut as int));
        assert(head@ == decode_utf8(encode_utf8(head@)));
    }
    let mut id = "n1_".to_owned();
    id.append(head);
    id.append("_");
    let h = u64_to_decimal(simple_hash(fp));
    id.append(h.as_str());
    id
}

fn find_fp(fps: &Vec<String>, fp: &String) -> (r: Option<usize>)
    ensures
        r matches Some(c) ==> c < fps.len() && fps@[c as int]@ == fp@,
        r is None ==> forall|c: int| 0 <= c < fps.len() ==> (#[trigger] fps@[c])@ != fp@,
{
    let mut c: usize = 0;
    while c < fps.len()
        invariant
            c <= fps.len(),
            forall|k: int| 0 <= k < c ==> (#[trigger] fps@[k])@ != fp@,
        decreases fps.len() - c,
    {
        if fps[c] == *fp {
            return Some(c);
        }
        c = c + 1;
    }
    None
}

pub open spec fn strings_view(v: Seq<String>) -> Seq<Seq<char>> {
    v.map_values(|s: String| s@)
}

/// Count the SQL fingerprints of one trace (the spans `spans[idx[..]]`):
/// each distinct fingerprint, with its count and wrapping total duration.
fn fingerprint_counts(spans: &Vec<Span>, idx: &Vec<usize>) -> (r: (Vec<String>, Vec<u32>, Vec<i64>))
    requires
        idx.len() < u32::MAX,
        forall|k: int| 0 <= k < idx.len() ==> (#[trigger] idx@[k]) < spans.len(),
    ensures
        r.0.len() == r.1.len(),
        r.0.len() == r.2.len(),
        strings_view(r.0@) == distinct_fps(pick(spans_view(spans@), idx@)),
        forall|c: int| 0 <= c < r.0.len() ==> r.1@[c] == fp_count(pick(spans_view(spans@), idx@), (#[trigger] r.0@[c])@),
        forall|c: int| 0 <= c < r.0.len() ==> r.2@[c] == fp_total(pick(spans_view(spans@), idx@), (#[trigger] r.0@[c])@),
{
    let ghost g = pick(spans_view(spans@), idx@);
    let mut fps: Vec<String> = Vec::new();
    let mut counts: Vec<u32> = Vec::new();
    let mut totals: Vec<i64> = Vec::new();
    let mut k: usize = 0;
    while k < idx.len()
        invariant
            k <= idx.len(),
            idx.len() < u32::MAX,
            g == pick(spans_view(spans@), idx@),
            forall|m: int| 0 <= m < idx.len() ==> (#[trigger] idx@[m]) < spans.len(),
            fps.len() == counts.len(),
            fps.len() == totals.len(),
            strings_view(fps@) == distinct_fps(g.take(k as int)),
            forall|c: int| 0 <= c < fps.len() ==> counts@[c] == fp_count(g.take(k as int), (#[trigger] fps@[c])@),
            forall|c: int| 0 <= c < fps.len() ==> totals@[c] == fp_total(g.take(k as int), (#[trigger] fps@[c])@),
        decreases idx.len() - k,
    {
        let s = &spans[idx[k]];
        let ghost gk = g.take(k as int);
        let ghost gk1 = g.take(k + 1);
        proof {
            assert(gk1.drop_last() =~= gk);
            assert(gk1.last() == s@);
            lemma_distinct_fps_unique(gk);
        }
        if eq_str(&s.kind, "sql") {
            let fp = fingerprint_of(s);
            let d = duration_of(s);
            match find_fp(&fps, &fp) {
                Some(c) => {
                    proof {
                        lemma_fp_count_bound(gk, fp@);
                    }
                    let ghost old_counts = counts@;
                    let ghost old_totals = totals@;
                    let nc = counts[c] + 1;
                    let nt = totals[c].wrapping_add(d as i64);
                    counts.set(c, nc);
                    totals.set(c, nt);
                    proof {
                        assert(!distinct_fps(gk).contains(fp@) == false) by {
                            assert(strings_view(fps@)[c as int] == fp@);
                        }
                        assert(distinct_fps(gk1) == distinct_fps(gk));
                        assert forall|c2: int| 0 <= c2 < fps.len() implies counts@[c2] == fp_count(gk1, (#[trigger] fps@[c2])@)
                            && totals@[c2] == fp_total(gk1, fps@[c2]@) by {
                            if c2 != c {
                                assert(strings_view(fps@)[c2] != strings_view(fps@)[c as int]);
                            }
                        }
                    }
                },
                None => {
                    proof {
                        assert(!distinct_fps(gk).contains(fp@)) by {
                            if distinct_fps(gk).contains(fp@) {
                                let c2 = choose|c2: int| 0 <= c2 < distinct_fps(gk).len() && distinct_fps(gk)[c2] == fp@;
                                assert(strings_view(fps@)[c2] == fps@[c2]@);
                            }
                        }
                        lemma_count_means_listed(gk, fp@);
                    }
                    let ghost old_fps = fps@;
                    fps.push(fp);
                    counts.push(1);
                    totals.push(0i64.wrapping_add(d as i64));
                    proof {
                        assert(strings_view(fps@) =~= strings_view(old_fps).push(fps@[fps.len() - 1]@));
                        assert forall|c2: int| 0 <= c2 < fps.len() implies counts@[c2] == fp_count(gk1, (#[trigger] fps@[c2])@)
                            && totals@[c2] == fp_total(gk1, fps@[c2]@) by {
                            if c2 < fps.len() - 1 {
                                assert(strings_view(old_fps)[c2] == old_fps[c2]@);
                                assert(old_fps[c2]@ != fp@);
                            }
                        }
                    }
                },
            }
        } else {
            proof {
                assert(distinct_fps(gk1) == distinct_fps(gk));
            }
        }
        k = k + 1;
    }
    assert(g.take(k as int) =~= g);
    (fps, counts, totals)
}

fn location_exec(s: &Span) -> (r: (Option<String>, Option<i64>, Option<String>))
    ensures
        match location_of(s@) {
            Some(l) => r.0 matches Some(f) && f@ == l.filepath && r.1 == l.lineno && opt_view(r.2) == l.function,
            None => r.0 is None && r.1 is None && r.2 is None,
        },
{
    let file = match crate::protocol::find_attr(&s.attributes, "code.filepath") {
        Some(i) => match &s.attributes[i].value {
            AttrValue::Str(t) => Some(t.clone()),
            _ => None,
        },
        None => None,
    };
    match file {
        Some(f) => {
            if f.unicode_len() == 0 {
                return (None, None, None);
            }
            let line = match crate::protocol::find_attr(&s.attributes, "code.lineno") {
                Some(i) => match &s.attributes[i].value {
                    AttrValue::Int(v) => Some(*v),
                    _ => None,
                },
                None => None,
            };
            let func = match crate::protocol::find_attr(&s.attributes, "code.function") {
                Some(i) => match &s.attributes[i].value {
                    AttrValue::Str(t) => Some(t.clone()),
                    _ => None,
                },
                None => None,
            };
            (Some(f), line, func)
        },
        None => (None, None, None),
    }
}

/// The first location recorded among the SQL spans of `spans[idx[..]]` with fingerprint `fp`.
fn first_location(spans: &Vec<Span>, idx: &Vec<usize>, fp: &String) -> (r: (Option<String>, Option<i64>, Option<String>))
    requires
        forall|k: int| 0 <= k < idx.len() ==> (#[trigger] idx@[k]) < spans.len(),
    ensures
        match fp_location(pick(spans_view(spans@), idx@), fp@) {
            Some(l) => r.0 matches Some(f) && f@ == l.filepath && r.1 == l.lineno && opt_view(r.2) == l.function,
            None => r.0 is None && r.1 is None && r.2 is None,
        },
{
    let ghost g = pick(spans_view(spans@), idx@);
    let mut k: usize = 0;
    while k < idx.len()
        invariant
            k <= idx.len(),
            g == pick(spans_view(spans@), idx@),
            forall|m: int| 0 <= m < idx.len() ==> (#[trigger] idx@[m]) < spans.len(),
            fp_location(g.take(k as int), fp@) is None,
        decreases idx.len() - k,
    {
        let s = &spans[idx[k]];
        proof {
            assert(g.take(k + 1).drop_last() =~= g.take(k as int));
            assert(g.take(k + 1).last() == s@);
        }
        if eq_str(&s.kind, "sql") {
            let sfp = fingerprint_of(s);
            if sfp == *fp {
                let loc = location_exec(s);
                if loc.0.is_some() {
                    proof {
                        lemma_fp_location_prefix(g, fp@, k + 1);
                    }
                    return loc;
                }
            }
        }
        k = k + 1;
    }
    assert(g.take(k as int) =~= g);
    (None, None, None)
}

proof fn lemma_fp_location_prefix(g: Seq<SpanView>, fp: Seq<char>, n: int)
    requires
        0 <= n <= g.len(),
        fp_location(g.take(n), fp) is Some,
    ensures
        fp_location(g, fp) == fp_location(g.take(n), fp),
    decreases g.len(),
{
    if n < g.len() {
        assert(g.drop_last().take(n) =~= g.take(n));
        lemma_fp_location_prefix(g.drop_last(), fp, n);
    } else {
        assert(g.take(n) =~= g);
    }
}

/// Find the N+1 patterns of one trace (the spans `spans[idx[..]]`): every SQL
/// fingerprint seen at least `threshold` times, with its count and total duration.
pub fn detect_n_plus_one(
    trace_id: &String,
    root_resource: &Option<String>,
    spans: &Vec<Span>,
    idx: &Vec<usize>,
    threshold: u32,
    detected_at: i64,
) -> (events: Vec<NPlusOneEvent>)
    requires
        idx.len() < u32::MAX,
        forall|k: int| 0 <= k < idx.len() ==> (#[trigger] idx@[k]) < spans.len(),
    ensures
        events@.map_values(|e: NPlusOneEvent| e@) == n1_events(
            trace_id@,
            opt_view(*root_resource),
            pick(spans_view(spans@), idx@),
            threshold,
            detected_at,
        ),
{
    let ghost g = pick(spans_view(spans@), idx@);
    let (fps, counts, totals) = fingerprint_counts(spans, idx);
    let ghost pred = reaches_threshold(g, threshold);
    let ghost mk = |fp: Seq<char>| n1_event(trace_id@, opt_view(*root_resource), g, fp, detected_at);
    let ghost all_fps = distinct_fps(g);
    let mut events: Vec<NPlusOneEvent> = Vec::new();
    let mut c: usize = 0;
    while c < fps.len()
        invariant
            c <= fps.len(),
            fps.len() == counts.len(),
            fps.len() == totals.len(),
            g == pick(spans_view(spans@), idx@),
            forall|m: int| 0 <= m < idx.len() ==> (#[trigger] idx@[m]) < spans.len(),
            all_fps == distinct_fps(g),
            pred == reaches_threshold(g, threshold),
            mk == (|fp: Seq<char>| n1_event(trace_id@, opt_view(*root_resource), g, fp, detected_at)),
            strings_view(fps@) == all_fps,
            forall|c2: int| 0 <= c2 < fps.len() ==> counts@[c2] == fp_count(g, (#[trigger] fps@[c2])@),
            forall|c2: int| 0 <= c2 < fps.len() ==> totals@[c2] == fp_total(g, (#[trigger] fps@[c2])@),
            events@.map_values(|e: NPlusOneEvent| e@) == all_fps.take(c as int).filter(pred).map_values(mk),
        decreases fps.len() - c,
    {
        let ghost before = events@;
        proof {
            assert(all_fps.take(c + 1) =~= all_fps.take(c as int).push(all_fps[c as int]));
            all_fps.take(c as int).lemma_filter_push(all_fps[c as int], pred);
            assert(all_fps[c as int] == fps@[c as int]@);
        }
        if counts[c] >= threshold {
            proof {
                all_fps.lemma_filter_contains(pred, c as int);
                assert(n1_fps(g, threshold).len() > 0);
                lemma_fp_count_bound(g, fps@[c as int]@);
            }
            let (code_filepath, code_lineno, code_function) = first_location(spans, idx, &fps[c]);
            let ev = NPlusOneEvent {
                code_filepath,
                code_lineno,
                code_function,
                id: n1_event_id(trace_id.as_str(), fps[c].as_str()),
                trace_id: trace_id.clone(),
                root_resource: clone_opt(root_resource),
                sql_fingerprint: truncate(fps[c].as_str(), MAX_FINGERPRINT_CHARS),
                repeat_count: counts[c],
                total_duration_ns: totals[c],
                detected_at_ns: detected_at,
            };
            events.push(ev);
            proof {
                assert(events@.map_values(|e: NPlusOneEvent| e@) =~= before.map_values(|e: NPlusOneEvent| e@).push(
                    mk(all_fps[c as int])));
                assert(all_fps.take(c as int).filter(pred).push(all_fps[c as int]).map_values(mk)
                    =~= all_fps.take(c as int).filter(pred).map_values(mk).push(mk(all_fps[c as int])));
            }
        }
        c = c + 1;
    }
    assert(all_fps.take(c as int) =~= all_fps);
    events
}

/// Characters of a root resource kept on a trace record.
pub const MAX_ROOT_RESOURCE_CHARS: usize = 512;
/// Characters of a span name kept on a span record.
pub const MAX_SPAN_NAME_CHARS: usize = 256;
/// Characters of a span kind kept on a span record.
pub const MAX_SPAN_KIND_CHARS: usize = 64;
/// Characters of a span resource kept on a span record.
pub const MAX_SPAN_RESOURCE_CHARS: usize = 1024;
/// Characters of a span's attribute JSON kept on a span record.
pub const MAX_ATTRIBUTES_JSON_CHARS: usize = 16384;

/// Indices of the spans of trace `tid`, ascending.
pub open spec fn indices_of(all: Seq<SpanView>, tid: Seq<char>) -> Seq<usize>
    decreases all.len(),
{
    if all.len() == 0 {
        Seq::empty()
    } else {
        let d = indices_of(all.drop_last(), tid);
        if all.last().trace_id == tid {
            d.push((all.len() - 1) as usize)
        } else {
            d
        }
    }
}

/// The spans of trace `tid`, in batch order.
pub open spec fn trace_group(all: Seq<SpanView>, tid: Seq<char>) -> Seq<SpanView> {
    pick(all, indices_of(all, tid))
}

/// The trace ids of a batch, each once, in order of first appearance.
pub open spec fn distinct_tids(all: Seq<SpanView>) -> Seq<Seq<char>>
    decreases all.len(),
{
    if all.len() == 0 {
        Seq::empty()
    } else {
        let d = distinct_tids(all.drop_last());
        if !d.contains(all.last().trace_id) {
            d.push(all.last().trace_id)
        } else {
            d
        }
    }
}

pub open spec fn opt_trunc(o: Option<Seq<char>>, max: nat) -> Option<Seq<char>> {
    match o {
        Some(r) => Some(trunc(r, max)),
        None => None,
    }
}

/// The `http.status_code` attribute as an integer: an `i64` as is, a larger integer wrapped.
pub open spec fn status_code_of(attrs: Seq<crate::protocol::AttributeView>) -> Option<i64> {
    match lookup(attrs, "http.status_code"@) {
        Some(AttrValueView::Int(i)) => Some(i),
        Some(AttrValueView::UInt(u)) => Some(u as i64),
        _ => None,
    }
}

/// The row stored for a trace.
#[derive(Debug, Clone, PartialEq, Eq)]
pub struct TraceRecord {
    pub trace_id: String,
    pub root_resource: Option<String>,
    pub http_method: Option<String>,
    pub status_code: Option<i64>,
    pub duration_ns: i64,
    pub service: Option<String>,
    pub is_error: bool,
    pub start_time_ns: i64,
    pub received_at_ns: i64,
    pub has_n_plus_one: bool,
    pub root_kind: Option<String>,
}

pub struct TraceRecordView {
    pub trace_id: Seq<char>,
    pub root_resource: Option<Seq<char>>,
    pub http_method: Option<Seq<char>>,
    pub status_code: Option<i64>,
    pub duration_ns: i64,
    pub service: Option<Seq<char>>,
    pub is_error: bool,
    pub start_time_ns: i64,
    pub received_at_ns: i64,
    pub has_n_plus_one: bool,
    pub root_kind: Option<Seq<char>>,
}

impl View for TraceRecord {
    type V = TraceRecordView;

    open spec fn view(&self) -> TraceRecordView {
        TraceRecordView {
            trace_id: self.trace_id@,
            root_resource: opt_view(self.root_resource),
            http_method: opt_view(self.http_method),
            status_code: self.status_code,
            duration_ns: self.duration_ns,
            service: opt_view(self.service),
            is_error: self.is_error,
            start_time_ns: self.start_time_ns,
            received_at_ns: self.received_at_ns,
            has_n_plus_one: self.has_n_plus_one,
            root_kind: opt_view(self.root_kind),
        }
    }
}

/// The row stored for a span. Its attributes are those of `batch.spans[span_index]`.
#[derive(Debug, Clone, PartialEq, Eq)]
pub struct SpanRecord {
    pub span_index: usize,
    pub span_id: String,
    pub trace_id: String,
    pub parent_span_id: Option<String>,
    pub name: String,
    pub kind: String,
    pub resource: Option<String>,
    pub start_ns: i64,
    pub duration_ns: i64,
    pub status: String,
}

pub struct SpanRecordView {
    pub span_index: usize,
    pub span_id: Seq<char>,
    pub trace_id: Seq<char>,
    pub parent_span_id: Option<Seq<char>>,
    pub name: Seq<char>,
    pub kind: Seq<char>,
    pub resource: Option<Seq<char>>,
    pub start_ns: i64,
    pub duration_ns: i64,
    pub status: Seq<char>,
}

impl View for SpanRecord {
    type V = SpanRecordView;

    open spec fn view(&self) -> SpanRecordView {
        SpanRecordView {
            span_index: self.span_index,
            span_id: self.span_id@,
            trace_id: self.trace_id@,
            parent_span_id: opt_view(self.parent_span_id),
            name: self.name@,
            kind: self.kind@,
            resource: opt_view(self.resource),
            start_ns: self.start_ns,
            duration_ns: self.duration_ns,
            status: self.status@,
        }
    }
}

pub open spec fn span_record(i: usize, s: SpanView) -> SpanRecordView {
    SpanRecordView {
        span_index: i,
        span_id: s.span_id,
        trace_id: s.trace_id,
        parent_span_id: s.parent_span_id,
        name: trunc(s.name, MAX_SPAN_NAME_CHARS as nat),
        kind: trunc(s.kind, MAX_SPAN_KIND_CHARS as nat),
        resource: opt_trunc(s.resource, MAX_SPAN_RESOURCE_CHARS as nat),
        start_ns: s.start_time_unix_ns as i64,
        duration_ns: span_duration(s) as i64,
        status: s.status,
    }
}

/// The root resource stored for a trace: its root's resource cut to 512 characters.
pub open spec fn root_resource_of(g: Seq<SpanView>) -> Option<Seq<char>> {
    opt_trunc(g[selected_root(g)].resource, MAX_ROOT_RESOURCE_CHARS as nat)
}

pub open spec fn trace_record(
    tid: Seq<char>,
    g: Seq<SpanView>,
    service: Option<Seq<char>>,
    threshold: u32,
    received_at: i64,
) -> TraceRecordView {
    let r = g[selected_root(g)];
    TraceRecordView {
        trace_id: tid,
        root_resource: root_resource_of(g),
        http_method: as_str(lookup(r.attributes, "http.method"@)),
        status_code: status_code_of(r.attributes),
        duration_ns: span_duration(r) as i64,
        service: service,
        is_error: exists|j: int| 0 <= j < g.len() && g[j].status == "error"@,
        start_time_ns: r.start_time_unix_ns as i64,
        received_at_ns: received_at,
        has_n_plus_one: n1_fps(g, threshold).len() > 0,
        root_kind: Some(r.kind),
    }
}

/// Everything written for one trace of a batch.
#[derive(Debug, Clone, PartialEq, Eq)]
pub struct TracePlan {
    pub trace: TraceRecord,
    pub spans: Vec<SpanRecord>,
    pub n_plus_one: Vec<NPlusOneEvent>,
}

pub struct TracePlanView {
    pub trace: TraceRecordView,
    pub spans: Seq<SpanRecordView>,
    pub events: Seq<NPlusOneEventView>,
}

impl View for TracePlan {
    type V = TracePlanView;

    open spec fn view(&self) -> TracePlanView {
        TracePlanView {
            trace: self.trace@,
            spans: self.spans@.map_values(|r: SpanRecord| r@),
            events: self.n_plus_one@.map_values(|e: NPlusOneEvent| e@),
        }
    }
}

/// What ingesting trace `tid` of a batch writes, as a value.
pub open spec fn planned_trace(
    all: Seq<SpanView>,
    tid: Seq<char>,
    service: Option<Seq<char>>,
    threshold: u32,
    received_at: i64,
) -> TracePlanView {
    let g = trace_group(all, tid);
    TracePlanView {
        trace: trace_record(tid, g, service, threshold, received_at),
        spans: indices_of(all, tid).map_values(|i: usize| span_record(i, all[i as int])),
        events: n1_events(tid, root_resource_of(g), g, threshold, received_at),
    }
}

/// What ingesting a batch writes: the plan of each of its traces, in order of first appearance.
pub open spec fn planned(
    all: Seq<SpanView>,
    service: Option<Seq<char>>,
    threshold: u32,
    received_at: i64,
) -> Seq<TracePlanView> {
    distinct_tids(all).map_values(|tid: Seq<char>| planned_trace(all, tid, service, threshold, received_at))
}

/// What ingesting trace `tid` of a batch writes.
pub open spec fn trace_plan_ok(
    p: TracePlan,
    all: Seq<SpanView>,
    tid: Seq<char>,
    service: Option<Seq<char>>,
    threshold: u32,
    received_at: i64,
) -> bool {
    let g = trace_group(all, tid);
    &&& p.trace@ == trace_record(tid, g, service, threshold, received_at)
    &&& p.spans@.map_values(|r: SpanRecord| r@) == indices_of(all, tid).map_values(
        |i: usize| span_record(i, all[i as int]),
    )
    &&& p.n_plus_one@.map_values(|e: NPlusOneEvent| e@) == n1_events(
        tid,
        root_resource_of(g),
        g,
        threshold,
        received_at,
    )
}

/// The `service.name` string of a batch's resource attributes.
pub open spec fn service_of(batch: crate::protocol::TraceBatchView) -> Option<Seq<char>> {
    as_str(lookup(batch.resource, "service.name"@))
}

/// The trace ids of a batch, each once, in order of first appearance.
pub fn trace_ids(spans: &Vec<Span>) -> (ids: Vec<String>)
    ensures
        strings_view(ids@) == distinct_tids(spans_view(spans@)),
{
    let ghost all = spans_view(spans@);
    let mut ids: Vec<String> = Vec::new();
    let mut i: usize = 0;
    while i < spans.len()
        invariant
            i <= spans.len(),
            all == spans_view(spans@),
            strings_view(ids@) == distinct_tids(all.take(i as int)),
        decreases spans.len() - i,
    {
        proof {
            assert(all.take(i + 1).drop_last() =~= all.take(i as int));
            assert(all.take(i + 1).last() == spans@[i as int]@);
        }
        let known = match find_fp(&ids, &spans[i].trace_id) {
            Some(c) => {
                proof {
                    assert(strings_view(ids@)[c as int] == spans@[i as int].trace_id@);
                }
                true
            },
            None => {
                proof {
                    if distinct_tids(all.take(i as int)).contains(spans@[i as int].trace_id@) {
                        let c = choose|c: int| 0 <= c < ids.len() && strings_view(ids@)[c] == spans@[i as int].trace_id@;
                        assert(strings_view(ids@)[c] == ids@[c]@);
                    }
                }
                false
            },
        };
        if !known {
            let ghost before = ids@;
            ids.push(spans[i].trace_id.clone());
            assert(strings_view(ids@) =~= strings_view(before).push(spans@[i as int].trace_id@));
        }
        i = i + 1;
    }
    assert(all.take(i as int) =~= all);
    ids
}

proof fn lemma_indices_bound(all: Seq<SpanView>, tid: Seq<char>)
    ensures
        indices_of(all, tid).len() <= all.len(),
        forall|k: int| 0 <= k < indices_of(all, tid).len() ==> (#[trigger] indices_of(all, tid)[k]) < all.len(),
    decreases all.len(),
{
    if all.len() > 0 {
        lemma_indices_bound(all.drop_last(), tid);
    }
}

/// Indices of the spans of trace `tid`, ascending.
pub fn indices_for(spans: &Vec<Span>, tid: &String) -> (idx: Vec<usize>)
    ensures
        idx@ == indices_of(spans_view(spans@), tid@),
        idx.len() <= spans.len(),
        forall|k: int| 0 <= k < idx.len() ==> (#[trigger] idx@[k]) < spans.len(),
{
    let ghost all = spans_view(spans@);
    let mut idx: Vec<usize> = Vec::new();
    let mut i: usize = 0;
    while i < spans.len()
        invariant
            i <= spans.len(),
            all == spans_view(spans@),
            idx@ == indices_of(all.take(i as int), tid@),
        decreases spans.len() - i,
    {
        proof {
            assert(all.take(i + 1).drop_last() =~= all.take(i as int));
            assert(all.take(i + 1).last() == spans@[i as int]@);
        }
        if spans[i].trace_id == *tid {
            idx.push(i);
        }
        i = i + 1;
    }
    assert(all.take(i as int) =~= all);
    proof {
        lemma_indices_bound(all, tid@);
    }
    idx
}

/// Whether the trace made of `spans[idx[..]]` has an N+1 pattern.
pub fn has_n_plus_one(spans: &Vec<Span>, idx: &Vec<usize>, threshold: u32) -> (r: bool)
    requires
        idx.len() < u32::MAX,
        forall|k: int| 0 <= k < idx.len() ==> (#[trigger] idx@[k]) < spans.len(),
    ensures
        r == (n1_fps(pick(spans_view(spans@), idx@), threshold).len() > 0),
{
    let ghost g = pick(spans_view(spans@), idx@);
    let ghost pred = reaches_threshold(g, threshold);
    let (fps, counts, _totals) = fingerprint_counts(spans, idx);
    let ghost all_fps = distinct_fps(g);
    let mut c: usize = 0;
    while c < fps.len()
        invariant
            c <= fps.len(),
            fps.len() == counts.len(),
            strings_view(fps@) == all_fps,
            g == pick(spans_view(spans@), idx@),
            all_fps == distinct_fps(g),
            pred == reaches_threshold(g, threshold),
            forall|c2: int| 0 <= c2 < fps.len() ==> counts@[c2] == fp_count(g, (#[trigger] fps@[c2])@),
            all_fps.take(c as int).filter(pred).len() == 0,
        decreases fps.len() - c,
    {
        proof {
            assert(all_fps.take(c + 1) =~= all_fps.take(c as int).push(all_fps[c as int]));
            all_fps.take(c as int).lemma_filter_push(all_fps[c as int], pred);
            assert(all_fps[c as int] == fps@[c as int]@);
        }
        if counts[c] >= threshold {
            proof {
                assert(pred(all_fps[c as int]));
                all_fps.lemma_filter_contains(pred, c as int);
                assert(all_fps.filter(pred).contains(all_fps[c as int]));
            }
            return true;
        }
        c = c + 1;
    }
    assert(all_fps.take(c as int) =~= all_fps);
    false
}

fn trunc_opt(o: &Option<String>, max: usize) -> (r: Option<String>)
    ensures
        opt_view(r) == opt_trunc(opt_view(*o), max as nat),
{
    match o {
        Some(s) => Some(truncate(s.as_str(), max)),
        None => None,
    }
}

fn attr_str(attrs: &Vec<crate::protocol::Attribute>, key: &str) -> (r: Option<String>)
    ensures
        opt_view(r) == as_str(lookup(attrs_view(attrs@), key@)),
{
    match crate::protocol::find_attr(attrs, key) {
        Some(i) => match &attrs[i].value {
            AttrValue::Str(t) => Some(t.clone()),
            _ => None,
        },
        None => None,
    }
}

fn status_code(attrs: &Vec<crate::protocol::Attribute>) -> (r: Option<i64>)
    ensures
        r == status_code_of(attrs_view(attrs@)),
{
    match crate::protocol::find_attr(attrs, "http.status_code") {
        Some(i) => match &attrs[i].value {
            AttrValue::Int(v) => Some(*v),
            AttrValue::UInt(u) => Some(*u as i64),
            _ => None,
        },
        None => None,
    }
}

fn make_span_record(i: usize, s: &Span) -> (r: SpanRecord)
    ensures
        r@ == span_record(i, s@),
{
    SpanRecord {
        span_index: i,
        span_id: s.span_id.clone(),
        trace_id: s.trace_id.clone(),
        parent_span_id: clone_opt(&s.parent_span_id),
        name: truncate(s.name.as_str(), MAX_SPAN_NAME_CHARS),
        kind: truncate(s.kind.as_str(), MAX_SPAN_KIND_CHARS),
        resource: trunc_opt(&s.resource, MAX_SPAN_RESOURCE_CHARS),
        start_ns: s.start_time_unix_ns as i64,
        duration_ns: duration_of(s) as i64,
        status: s.status.clone(),
    }
}

/// Plan the writes of one trace, made of the spans `spans[idx[..]]`.
fn plan_trace(
    spans: &Vec<Span>,
    tid: &String,
    service: &Option<String>,
    threshold: u32,
    received_at: i64,
) -> (p: TracePlan)
    requires
        spans.len() < u32::MAX,
        indices_of(spans_view(spans@), tid@).len() > 0,
    ensures
        trace_plan_ok(p, spans_view(spans@), tid@, opt_view(*service), threshold, received_at),
{
    let ghost all = spans_view(spans@);
    let idx = indices_for(spans, tid);
    let ghost g = pick(all, idx@);
    proof {
        lemma_selected_root_bound(g);
    }
    let r = match select_root(spans, &idx) {
        Some(i) => i,
        None => 0,
    };
    let root = &spans[idx[r]];
    assert(root@ == g[r as int]);
    let root_resource = trunc_opt(&root.resource, MAX_ROOT_RESOURCE_CHARS);
    let mut is_error = false;
    let mut k: usize = 0;
    while k < idx.len()
        invariant
            k <= idx.len(),
            g == pick(all, idx@),
            all == spans_view(spans@),
            forall|m: int| 0 <= m < idx.len() ==> (#[trigger] idx@[m]) < spans.len(),
            is_error == exists|j: int| 0 <= j < k && g[j].status == "error"@,
        decreases idx.len() - k,
    {
        assert(g[k as int] == spans@[idx@[k as int] as int]@);
        if eq_str(&spans[idx[k]].status, "error") {
            is_error = true;
        }
        k = k + 1;
    }
    let has_n1 = has_n_plus_one(spans, &idx, threshold);
    let events = detect_n_plus_one(tid, &root_resource, spans, &idx, threshold, received_at);
    let trace = TraceRecord {
        trace_id: tid.clone(),
        root_resource,
        http_method: attr_str(&root.attributes, "http.method"),
        status_code: status_code(&root.attributes),
        duration_ns: duration_of(root) as i64,
        service: clone_opt(service),
        is_error,
        start_time_ns: root.start_time_unix_ns as i64,
        received_at_ns: received_at,
        has_n_plus_one: has_n1,
        root_kind: Some(root.kind.clone()),
    };
    let mut records: Vec<SpanRecord> = Vec::new();
    let mut m: usize = 0;
    while m < idx.len()
        invariant
            m <= idx.len(),
            all == spans_view(spans@),
            forall|q: int| 0 <= q < idx.len() ==> (#[trigger] idx@[q]) < spans.len(),
            records@.map_values(|r: SpanRecord| r@) == idx@.take(m as int).map_values(
                |i: usize| span_record(i, all[i as int]),
            ),
        decreases idx.len() - m,
    {
        let ghost before = records@;
        let rec = make_span_record(idx[m], &spans[idx[m]]);
        records.push(rec);
        proof {
            assert(records@.map_values(|r: SpanRecord| r@) =~= before.map_values(|r: SpanRecord| r@).push(rec@));
            assert(idx@.take(m + 1).map_values(|i: usize| span_record(i, all[i as int]))
                =~= idx@.take(m as int).map_values(|i: usize| span_record(i, all[i as int])).push(
                span_record(idx@[m as int], all[idx@[m as int] as int])));
        }
        m = m + 1;
    }
    assert(idx@.take(m as int) =~= idx@);
    TracePlan { trace, spans: records, n_plus_one: events }
}

/// Plan what storing a batch writes: for each trace (in order of first
/// appearance) its trace record, a record per span and its N+1 events.
pub fn plan_ingest(batch: &TraceBatch, threshold: u32, received_at: i64) -> (plans: Vec<TracePlan>)
    requires
        batch.spans.len() < u32::MAX,
    ensures
        plans.len() == distinct_tids(batch@.spans).len(),
        forall|k: int| 0 <= k < plans.len() ==> trace_plan_ok(
            #[trigger] plans@[k],
            batch@.spans,
            distinct_tids(batch@.spans)[k],
            service_of(batch@),
            threshold,
            received_at,
        ),
        plans@.map_values(|p: TracePlan| p@) == planned(batch@.spans, service_of(batch@), threshold, received_at),
{
    let ghost all = batch@.spans;
    let service = attr_str(&batch.resource, "service.name");
    let ids = trace_ids(&batch.spans);
    let mut plans: Vec<TracePlan> = Vec::new();
    let mut k: usize = 0;
    while k < ids.len()
        invariant
            k <= ids.len(),
            all == batch@.spans,
            batch.spans.len() < u32::MAX,
            opt_view(service) == service_of(batch@),
            strings_view(ids@) == distinct_tids(all),
            plans.len() == k,
            forall|q: int| 0 <= q < k ==> trace_plan_ok(
                #[trigger] plans@[q],
                all,
                distinct_tids(all)[q],
                service_of(batch@),
                threshold,
                received_at,
            ),
        decreases ids.len() - k,
    {
        proof {
            assert(strings_view(ids@)[k as int] == ids@[k as int]@);
            lemma_tid_has_span(all, k as int);
        }
        let p = plan_trace(&batch.spans, &ids[k], &service, threshold, received_at);
        plans.push(p);
        k = k + 1;
    }
    proof {
        assert forall|q: int| 0 <= q < plans.len() implies #[trigger] plans@[q]@ == planned(
            all,
            service_of(batch@),
            threshold,
            received_at,
        )[q] by {
            assert(trace_plan_ok(plans@[q], all, distinct_tids(all)[q], service_of(batch@), threshold, received_at));
            assert(plans@[q]@.spans =~= planned(all, service_of(batch@), threshold, received_at)[q].spans);
            assert(plans@[q]@.events =~= planned(all, service_of(batch@), threshold, received_at)[q].events);
        }
        assert(plans@.map_values(|p: TracePlan| p@) =~= planned(all, service_of(batch@), threshold, received_at));
    }
    plans
}

proof fn lemma_tid_has_span(all: Seq<SpanView>, k: int)
    requires
        0 <= k < distinct_tids(all).len(),
    ensures
        indices_of(all, distinct_tids(all)[k]).len() > 0,
    decreases all.len(),
{
    if all.len() > 0 {
        let d = distinct_tids(all.drop_last());
        if k < d.len() {
            lemma_tid_has_span(all.drop_last(), k);
        }
    }
}

/// Number of span records written for the traces `tids`.
pub open spec fn records_for(all: Seq<SpanView>, tids: Seq<Seq<char>>) -> nat
    decreases tids.len(),
{
    if tids.len() == 0 {
        0
    } else {
        records_for(all, tids.drop_last()) + indices_of(all, tids.last()).len()
    }
}

proof fn lemma_distinct_tids_unique(all: Seq<SpanView>)
    ensures
        distinct_tids(all).no_duplicates(),
    decreases all.len(),
{
    if all.len() > 0 {
        lemma_distinct_tids_unique(all.drop_last());
    }
}

proof fn lemma_indices_listed(all: Seq<SpanView>, t: Seq<char>)
    ensures
        indices_of(all, t).len() > 0 ==> distinct_tids(all).contains(t),
    decreases all.len(),
{
    if all.len() > 0 {
        lemma_indices_listed(all.drop_last(), t);
        let d = distinct_tids(all.drop_last());
        if !d.contains(all.last().trace_id) && d.contains(t) {
            let i = choose|i: int| 0 <= i < d.len() && d[i] == t;
            assert(d.push(all.last().trace_id)[i] == t);
        }
        if !d.contains(all.last().trace_id) && all.last().trace_id == t {
            assert(d.push(all.last().trace_id)[d.len() as int] == t);
        }
    }
}

proof fn lemma_records_step(all: Seq<SpanView>, tids: Seq<Seq<char>>)
    requires
        all.len() > 0,
        tids.no_duplicates(),
    ensures
        records_for(all, tids) == records_for(all.drop_last(), tids) + if tids.contains(all.last().trace_id) {
            1nat
        } else {
            0nat
        },
    decreases tids.len(),
{
    if tids.len() > 0 {
        let init = tids.drop_last();
        assert(init.no_duplicates());
        lemma_records_step(all, init);
        if init.contains(all.last().trace_id) {
            let i = choose|i: int| 0 <= i < init.len() && init[i] == all.last().trace_id;
            assert(tids[i] == init[i]);
            assert(tids.last() != all.last().trace_id);
            assert(tids.contains(all.last().trace_id));
        } else if tids.last() == all.last().trace_id {
            assert(tids.contains(all.last().trace_id));
        } else {
            if tids.contains(all.last().trace_id) {
                let i = choose|i: int| 0 <= i < tids.len() && tids[i] == all.last().trace_id;
                assert(init[i] == tids[i]);
            }
        }
    }
}

/// Law: storing a batch writes one span record per span received; the span
/// records of all its traces add up to the batch's length.
pub proof fn law_every_span_recorded(all: Seq<SpanView>)
    ensures
        records_for(all, distinct_tids(all)) == all.len(),
    decreases all.len(),
{
    if all.len() > 0 {
        let a = all.drop_last();
        let x = all.last().trace_id;
        let d = distinct_tids(a);
        law_every_span_recorded(a);
        lemma_distinct_tids_unique(a);
        lemma_distinct_tids_unique(all);
        if d.contains(x) {
            lemma_records_step(all, d);
        } else {
            lemma_records_step(all, d);
            lemma_indices_listed(a, x);
            assert(d.push(x).drop_last() =~= d);
        }
    }
}

proof fn lemma_listed_means_count(g: Seq<SpanView>, fp: Seq<char>)
    ensures
        distinct_fps(g).contains(fp) ==> fp_count(g, fp) > 0,
    decreases g.len(),
{
    if g.len() > 0 {
        lemma_listed_means_count(g.drop_last(), fp);
        let d = distinct_fps(g.drop_last());
        if distinct_fps(g).contains(fp) && !d.contains(fp) {
            let i = choose|i: int| 0 <= i < distinct_fps(g).len() && distinct_fps(g)[i] == fp;
            assert(i == d.len());
        }
    }
}

/// Law: a trace gets an N+1 event for a SQL fingerprint exactly when that
/// fingerprint occurs at least `threshold` times among its SQL spans (for any
/// threshold of at least one), and then the event counts every occurrence.
pub proof fn law_n1_flags_repeats(g: Seq<SpanView>, threshold: u32, fp: Seq<char>)
    requires
        threshold >= 1,
    ensures
        n1_fps(g, threshold).contains(fp) <==> fp_count(g, fp) >= threshold,
{
    let pred = reaches_threshold(g, threshold);
    let d = distinct_fps(g);
    lemma_listed_means_count(g, fp);
    lemma_count_means_listed(g, fp);
    if fp_count(g, fp) >= threshold {
        let i = choose|i: int| 0 <= i < d.len() && d[i] == fp;
        d.lemma_filter_contains(pred, i);
    }
    if n1_fps(g, threshold).contains(fp) {
        let i = choose|i: int| 0 <= i < d.filter(pred).len() && d.filter(pred)[i] == fp;
        d.lemma_filter_pred(pred, i);
    }
}

/// Law: a stored trace is flagged as having an N+1 pattern exactly when N+1
/// events are stored with it.
pub proof fn law_flag_matches_events(
    p: TracePlan,
    all: Seq<SpanView>,
    tid: Seq<char>,
    service: Option<Seq<char>>,
    threshold: u32,
    received_at: i64,
)
    requires
        trace_plan_ok(p, all, tid, service, threshold, received_at),
    ensures
        p.trace.has_n_plus_one == (p.n_plus_one.len() > 0),
{
    assert(p.n_plus_one@.map_values(|e: NPlusOneEvent| e@).len() == p.n_plus_one.len());
}

/// Law: planning the spans of a batch again, at another receive time, plans
/// the same trace record but for its receive time and the same N+1 events
/// (same ids, fingerprints, counts and totals) but for their detection time;
/// span records do not depend on the receive time at all. So re-ingesting a
/// batch plans rows under the same trace, span and event ids as before.
pub proof fn law_replan_changes_only_times(
    all: Seq<SpanView>,
    tid: Seq<char>,
    service: Option<Seq<char>>,
    threshold: u32,
    t1: i64,
    t2: i64,
)
    ensures
        trace_record(tid, trace_group(all, tid), service, threshold, t2) == (TraceRecordView {
            received_at_ns: t2,
            ..trace_record(tid, trace_group(all, tid), service, threshold, t1)
        }),
        n1_events(tid, root_resource_of(trace_group(all, tid)), trace_group(all, tid), threshold, t2).len()
            == n1_events(tid, root_resource_of(trace_group(all, tid)), trace_group(all, tid), threshold, t1).len(),
        forall|i: int|
            0 <= i < n1_events(tid, root_resource_of(trace_group(all, tid)), trace_group(all, tid), threshold, t1).len()
                ==> #[trigger] n1_events(tid, root_resource_of(trace_group(all, tid)), trace_group(all, tid), threshold, t2)[i]
                == (NPlusOneEventView {
                detected_at_ns: t2,
                ..n1_events(tid, root_resource_of(trace_group(all, tid)), trace_group(all, tid), threshold, t1)[i]
            }),
{
}

/// Law: every span record planned for a batch (of a length a `Vec` can hold)
/// is made from one received span of its trace, and keeps that span's id,
/// trace id, parent and status, its start time as received and its length as
/// end minus start (zero when the span ends before it starts).
pub proof fn law_span_records_keep_times(
    all: Seq<SpanView>,
    service: Option<Seq<char>>,
    threshold: u32,
    received_at: i64,
    k: int,
    j: int,
)
    requires
        all.len() <= usize::MAX,
        0 <= k < planned(all, service, threshold, received_at).len(),
        0 <= j < planned(all, service, threshold, received_at)[k].spans.len(),
    ensures
        ({
            let p = planned(all, service, threshold, received_at)[k];
            let rec = p.spans[j];
            let s = all[rec.span_index as int];
            &&& rec.span_index < all.len()
            &&& s.trace_id == p.trace.trace_id
            &&& rec.trace_id == s.trace_id
            &&& rec.span_id == s.span_id
            &&& rec.parent_span_id == s.parent_span_id
            &&& rec.status == s.status
            &&& rec.start_ns == s.start_time_unix_ns as i64
            &&& rec.duration_ns == (if s.end_time_unix_ns >= s.start_time_unix_ns {
                (s.end_time_unix_ns - s.start_time_unix_ns) as i64
            } else {
                0i64
            })
        }),
{
    let tid = distinct_tids(all)[k];
    lemma_indices_bound(all, tid);
    lemma_indices_match(all, tid);
}

proof fn lemma_indices_match(all: Seq<SpanView>, tid: Seq<char>)
    requires
        all.len() <= usize::MAX,
    ensures
        forall|q: int| 0 <= q < indices_of(all, tid).len() ==> all[#[trigger] indices_of(all, tid)[q] as int].trace_id == tid,
    decreases all.len(),
{
    if all.len() > 0 {
        lemma_indices_match(all.drop_last(), tid);
        lemma_indices_bound(all.drop_last(), tid);
        let d = indices_of(all.drop_last(), tid);
        assert forall|q: int| 0 <= q < indices_of(all, tid).len() implies all[#[trigger] indices_of(all, tid)[q] as int].trace_id == tid by {
            if q < d.len() {
                assert(indices_of(all, tid)[q] == d[q]);
                assert(all.drop_last()[d[q] as int].trace_id == tid);
                assert(all[d[q] as int] == all.drop_last()[d[q] as int]);
            } else {
                assert(all.last().trace_id == tid);
                assert(indices_of(all, tid)[q] == (all.len() - 1) as usize);
            }
        }
    }
}

/// Law: an N+1 repeat count counts exactly the spans of kind `sql` with the
/// given fingerprint; spans of any other kind never count.
pub proof fn law_only_sql_spans_count(g: Seq<SpanView>, fp: Seq<char>)
    ensures
        fp_count(g, fp) == g.filter(|s: SpanView| s.kind == "sql"@ && fingerprint(s) == fp).len(),
    decreases g.len(),
{
    let p = |s: SpanView| s.kind == "sql"@ && fingerprint(s) == fp;
    if g.len() > 0 {
        law_only_sql_spans_count(g.drop_last(), fp);
        g.drop_last().lemma_filter_push(g.last(), p);
        assert(g.drop_last().push(g.last()) =~= g);
    }
}

proof fn lemma_non_sql_same_counts(g: Seq<SpanView>, s: SpanView, fp: Seq<char>)
    requires
        s.kind != "sql"@,
    ensures
        fp_count(g.push(s), fp) == fp_count(g, fp),
        fp_total(g.push(s), fp) == fp_total(g, fp),
        fp_location(g.push(s), fp) == fp_location(g, fp),
{
    assert(g.push(s).drop_last() =~= g);
}

/// Law: adding a span whose kind is not `sql` to a trace changes neither the
/// fingerprints it flags as N+1 nor any of its N+1 events.
pub proof fn law_non_sql_span_ignored(
    g: Seq<SpanView>,
    s: SpanView,
    tid: Seq<char>,
    root_resource: Option<Seq<char>>,
    threshold: u32,
    detected_at: i64,
)
    requires
        s.kind != "sql"@,
    ensures
        n1_fps(g.push(s), threshold) == n1_fps(g, threshold),
        n1_events(tid, root_resource, g.push(s), threshold, detected_at) == n1_events(
            tid,
            root_resource,
            g,
            threshold,
            detected_at,
        ),
{
    let h = g.push(s);
    assert(h.drop_last() =~= g);
    assert(distinct_fps(h) == distinct_fps(g));
    assert forall|fp: Seq<char>| #[trigger] fp_count(h, fp) == fp_count(g, fp) by {
        lemma_non_sql_same_counts(g, s, fp);
    }
    assert(reaches_threshold(h, threshold) =~= reaches_threshold(g, threshold));
    let fs = n1_fps(g, threshold);
    let mk_h = |fp: Seq<char>| n1_event(tid, root_resource, h, fp, detected_at);
    let mk_g = |fp: Seq<char>| n1_event(tid, root_resource, g, fp, detected_at);
    assert forall|i: int| 0 <= i < fs.len() implies mk_h(fs[i]) == mk_g(fs[i]) by {
        lemma_non_sql_same_counts(g, s, fs[i]);
    }
    assert(fs.map_values(mk_h) =~= fs.map_values(mk_g));
}

/// Law: a trace none of whose spans has kind `sql` has no N+1 fingerprint and
/// no N+1 event, whatever the threshold.
pub proof fn law_no_sql_no_events(
    g: Seq<SpanView>,
    tid: Seq<char>,
    root_resource: Option<Seq<char>>,
    threshold: u32,
    detected_at: i64,
)
    requires
        forall|j: int| 0 <= j < g.len() ==> (#[trigger] g[j]).kind != "sql"@,
    ensures
        n1_fps(g, threshold).len() == 0,
        n1_events(tid, root_resource, g, threshold, detected_at).len() == 0,
    decreases g.len(),
{
    if g.len() > 0 {
        let init = g.drop_last();
        assert forall|j: int| 0 <= j < init.len() implies (#[trigger] init[j]).kind != "sql"@ by {
            assert(init[j] == g[j]);
        }
        law_no_sql_no_events(init, tid, root_resource, threshold, detected_at);
        assert(g[g.len() - 1].kind != "sql"@);
        assert(init.push(g.last()) =~= g);
        law_non_sql_span_ignored(init, g.last(), tid, root_resource, threshold, detected_at);
    }
}

} // verus!
