//! Per-endpoint latency statistics over stored traces.

use vstd::prelude::*;
use crate::protocol::opt_view;

verus! {

/// Insert `x` into the ascending sequence `s`, before the first larger element.
pub open spec fn insert_sorted(s: Seq<i64>, x: i64) -> Seq<i64>
    decreases s.len(),
{
    if s.len() == 0 {
        seq![x]
    } else if x < s[0] {
        seq![x] + s
    } else {
        seq![s[0]] + insert_sorted(s.drop_first(), x)
    }
}

/// `s` in ascending order.
pub open spec fn sort_i64(s: Seq<i64>) -> Seq<i64>
    decreases s.len(),
{
    if s.len() == 0 {
        s
    } else {
        insert_sorted(sort_i64(s.drop_last()), s.last())
    }
}

pub open spec fn is_ascending(s: Seq<i64>) -> bool {
    forall|i: int, j: int| 0 <= i <= j < s.len() ==> s[i] <= s[j]
}

/// Position at which `insert_sorted` places `x`.
pub open spec fn insert_pos(s: Seq<i64>, x: i64) -> int
    decreases s.len(),
{
    if s.len() == 0 || x < s[0] {
        0
    } else {
        1 + insert_pos(s.drop_first(), x)
    }
}

proof fn lemma_insert_pos(s: Seq<i64>, x: i64)
    ensures
        0 <= insert_pos(s, x) <= s.len(),
        forall|i: int| 0 <= i < insert_pos(s, x) ==> s[i] <= x,
        insert_pos(s, x) < s.len() ==> x < s[insert_pos(s, x)],
        insert_sorted(s, x) == s.take(insert_pos(s, x)) + seq![x] + s.skip(insert_pos(s, x)),
    decreases s.len(),
{
    if s.len() > 0 && !(x < s[0]) {
        let t = s.drop_first();
        lemma_insert_pos(t, x);
        assert forall|i: int| 0 <= i < insert_pos(s, x) implies s[i] <= x by {
            if i > 0 {
                assert(s[i] == t[i - 1]);
            }
        }
    }
    lemma_insert_at(s, x, insert_pos(s, x));
}

proof fn lemma_insert_sorted(s: Seq<i64>, x: i64)
    requires
        is_ascending(s),
    ensures
        is_ascending(insert_sorted(s, x)),
        insert_sorted(s, x).len() == s.len() + 1,
        forall|v: i64| insert_sorted(s, x).contains(v) <==> (v == x || s.contains(v)),
{
    lemma_insert_pos(s, x);
    let p = insert_pos(s, x);
    let r = insert_sorted(s, x);
    assert(r.len() == s.len() + 1);
    assert forall|i: int| 0 <= i < r.len() implies #[trigger] r[i] == (if i < p { s[i] } else if i == p { x } else { s[i - 1] }) by {
    }
    assert forall|i: int, j: int| 0 <= i <= j < r.len() implies r[i] <= r[j] by {
        assert(r[i] == (if i < p { s[i] } else if i == p { x } else { s[i - 1] }));
        assert(r[j] == (if j < p { s[j] } else if j == p { x } else { s[j - 1] }));
        if i < p && j > p {
            assert(s[i] <= x);
            assert(x < s[p]);
            assert(s[p] <= s[j - 1]);
        } else if i == p && j > p {
            assert(x < s[p]);
            assert(s[p] <= s[j - 1]);
        }
    }
    assert forall|v: i64| r.contains(v) <==> (v == x || s.contains(v)) by {
        if r.contains(v) {
            let i = choose|i: int| 0 <= i < r.len() && r[i] == v;
            assert(r[i] == (if i < p { s[i] } else if i == p { x } else { s[i - 1] }));
            if i < p {
                assert(s.contains(v));
            } else if i > p {
                assert(s[i - 1] == v);
                assert(s.contains(v));
            }
        }
        if v == x {
            assert(r[p] == x);
        }
        if s.contains(v) {
            let i = choose|i: int| 0 <= i < s.len() && s[i] == v;
            if i < p {
                assert(r[i] == s[i]);
            } else {
                assert(r[i + 1] == s[i]);
            }
        }
    }
}

/// Law: sorting yields an ascending sequence of the same length holding the same values.
pub proof fn law_sort_ascending(s: Seq<i64>)
    ensures
        is_ascending(sort_i64(s)),
        sort_i64(s).len() == s.len(),
        forall|v: i64| sort_i64(s).contains(v) <==> s.contains(v),
    decreases s.len(),
{
    if s.len() > 0 {
        law_sort_ascending(s.drop_last());
        lemma_insert_sorted(sort_i64(s.drop_last()), s.last());
        assert forall|v: i64| sort_i64(s).contains(v) <==> s.contains(v) by {
            if s.drop_last().contains(v) {
                let i = choose|i: int| 0 <= i < s.drop_last().len() && s.drop_last()[i] == v;
                assert(s[i] == v);
            }
            if v == s.last() {
                assert(s[s.len() - 1] == v);
            }
            if s.contains(v) && v != s.last() {
                let i = choose|i: int| 0 <= i < s.len() && s[i] == v;
                assert(s.drop_last()[i] == v);
            }
        }
    }
}

fn insert_into(v: &mut Vec<i64>, x: i64)
    ensures
        final(v)@ == insert_sorted(old(v)@, x),
{
    let ghost s = v@;
    let mut pos: usize = 0;
    while pos < v.len() && v[pos] <= x
        invariant
            pos <= v.len(),
            v@ == s,
            forall|i: int| 0 <= i < pos ==> v@[i] <= x,
        decreases v.len() - pos,
    {
        pos = pos + 1;
    }
    proof {
        lemma_insert_at(s, x, pos as int);
    }
    v.insert(pos, x);
    assert(v@ =~= s.take(pos as int) + seq![x] + s.skip(pos as int));
}

proof fn lemma_insert_at(s: Seq<i64>, x: i64, pos: int)
    requires
        0 <= pos <= s.len(),
        forall|i: int| 0 <= i < pos ==> s[i] <= x,
        pos < s.len() ==> x < s[pos],
    ensures
        insert_sorted(s, x) == s.take(pos) + seq![x] + s.skip(pos),
    decreases s.len(),
{
    if pos == 0 {
        if s.len() > 0 {
            assert(s.skip(0) =~= s);
        }
        assert(s.take(0) + seq![x] + s.skip(0) =~= seq![x] + s);
        if s.len() == 0 {
            assert(seq![x] + s =~= seq![x]);
        }
    } else {
        let t = s.drop_first();
        lemma_insert_at(t, x, pos - 1);
        assert(s.take(pos) + seq![x] + s.skip(pos) =~= seq![s[0]] + (t.take(pos - 1) + seq![x] + t.skip(pos - 1)));
    }
}

/// `s` sorted ascending.
pub fn sort_durations(s: &Vec<i64>) -> (r: Vec<i64>)
    ensures
        r@ == sort_i64(s@),
{
    let mut r: Vec<i64> = Vec::new();
    let mut i: usize = 0;
    while i < s.len()
        invariant
            i <= s.len(),
            r@ == sort_i64(s@.take(i as int)),
        decreases s.len() - i,
    {
        proof {
            assert(s@.take(i + 1).drop_last() =~= s@.take(i as int));
        }
        insert_into(&mut r, s[i]);
        i = i + 1;
    }
    assert(s@.take(i as int) =~= s@);
    r
}

/// Index of percentile `p` (in percent) of `n` sorted values: `(n - 1) * p / 100`
/// rounded half up, capped at the last index.
pub open spec fn percentile_index(n: nat, p: nat) -> int {
    let i = ((n - 1) * p + 50) / 100;
    if i < n - 1 {
        i
    } else {
        n - 1
    }
}

/// Percentile `p` (in percent) of an ascending sequence; zero for an empty one.
pub open spec fn percentile_of(sorted: Seq<i64>, p: nat) -> i64 {
    if sorted.len() == 0 {
        0
    } else if sorted.len() == 1 {
        sorted[0]
    } else {
        sorted[percentile_index(sorted.len(), p)]
    }
}

/// Percentile `p` (in percent) of the ascending values `sorted`.
pub fn percentile(sorted: &Vec<i64>, p: u64) -> (v: i64)
    ensures
        v == percentile_of(sorted@, p as nat),
{
    let n = sorted.len();
    if n == 0 {
        return 0;
    }
    if n == 1 {
        return sorted[0];
    }
    let m: u128 = (n - 1) as u128;
    assert(m * (p as u128) <= 0xffff_ffff_ffff_ffff * 0xffff_ffff_ffff_ffff) by (nonlinear_arith)
        requires
            m <= 0xffff_ffff_ffff_ffff,
            p <= 0xffff_ffff_ffff_ffff;
    let prod: u128 = m * (p as u128) + 50;
    let i: u128 = prod / 100;
    let last = n - 1;
    if i < last as u128 {
        sorted[i as usize]
    } else {
        sorted[last]
    }
}

/// Law: on sorted values the median is at most the 95th percentile, which is at
/// most the 99th, and each is one of the values.
pub proof fn law_percentiles_ordered(s: Seq<i64>)
    requires
        s.len() > 0,
    ensures
        percentile_of(sort_i64(s), 50) <= percentile_of(sort_i64(s), 95),
        percentile_of(sort_i64(s), 95) <= percentile_of(sort_i64(s), 99),
        s.contains(percentile_of(sort_i64(s), 50)),
        s.contains(percentile_of(sort_i64(s), 95)),
        s.contains(percentile_of(sort_i64(s), 99)),
{
    law_sort_ascending(s);
    let t = sort_i64(s);
    let n = t.len();
    if n > 1 {
        assert((n - 1) * 50 <= (n - 1) * 95) by (nonlinear_arith)
            requires n >= 1;
        assert((n - 1) * 95 <= (n - 1) * 99) by (nonlinear_arith)
            requires n >= 1;
        assert(((n - 1) * 50 + 50) / 100 <= ((n - 1) * 95 + 50) / 100) by (nonlinear_arith)
            requires (n - 1) * 50 <= (n - 1) * 95;
        assert(((n - 1) * 95 + 50) / 100 <= ((n - 1) * 99 + 50) / 100) by (nonlinear_arith)
            requires (n - 1) * 95 <= (n - 1) * 99;
        assert(t.contains(t[percentile_index(n, 50)]));
        assert(t.contains(t[percentile_index(n, 95)]));
        assert(t.contains(t[percentile_index(n, 99)]));
    } else {
        assert(t.contains(t[0]));
    }
}

/// Kind reported for an endpoint none of whose traces names one.
pub open spec fn default_kind() -> Seq<char> {
    "http.server"@
}

/// One stored trace as the endpoint statistics read it.
#[derive(Debug, Clone, PartialEq, Eq)]
pub struct EndpointSample {
    pub resource: String,
    pub duration_ns: i64,
    pub is_error: i64,
    pub has_n_plus_one: i64,
    pub kind: Option<String>,
}

pub struct EndpointSampleView {
    pub resource: Seq<char>,
    pub duration_ns: i64,
    pub is_error: i64,
    pub has_n_plus_one: i64,
    pub kind: Option<Seq<char>>,
}

impl View for EndpointSample {
    type V = EndpointSampleView;

    open spec fn view(&self) -> EndpointSampleView {
        EndpointSampleView {
            resource: self.resource@,
            duration_ns: self.duration_ns,
            is_error: self.is_error,
            has_n_plus_one: self.has_n_plus_one,
            kind: opt_view(self.kind),
        }
    }
}

pub open spec fn samples_view(v: Seq<EndpointSample>) -> Seq<EndpointSampleView> {
    v.map_values(|s: EndpointSample| s@)
}

/// Latency statistics of one endpoint, in nanoseconds.
#[derive(Debug, Clone, PartialEq, Eq)]
pub struct EndpointRow {
    pub resource: String,
    pub count: u64,
    pub error_count: u64,
    pub p50_ns: i64,
    pub p95_ns: i64,
    pub p99_ns: i64,
    /// Sum of the durations, for the average.
    pub total_ns: i128,
    pub n_plus_one_count: u64,
    pub kind: String,
}

pub struct EndpointRowView {
    pub resource: Seq<char>,
    pub count: u64,
    pub error_count: u64,
    pub p50_ns: i64,
    pub p95_ns: i64,
    pub p99_ns: i64,
    pub total_ns: int,
    pub n_plus_one_count: u64,
    pub kind: Seq<char>,
}

impl View for EndpointRow {
    type V = EndpointRowView;

    open spec fn view(&self) -> EndpointRowView {
        EndpointRowView {
            resource: self.resource@,
            count: self.count,
            error_count: self.error_count,
            p50_ns: self.p50_ns,
            p95_ns: self.p95_ns,
            p99_ns: self.p99_ns,
            total_ns: self.total_ns as int,
            n_plus_one_count: self.n_plus_one_count,
            kind: self.kind@,
        }
    }
}

pub open spec fn rows_view(v: Seq<EndpointRow>) -> Seq<EndpointRowView> {
    v.map_values(|r: EndpointRow| r@)
}

/// The resources of the samples, each once, in order of first appearance.
pub open spec fn distinct_resources(s: Seq<EndpointSampleView>) -> Seq<Seq<char>>
    decreases s.len(),
{
    if s.len() == 0 {
        Seq::empty()
    } else {
        let d = distinct_resources(s.drop_last());
        if d.contains(s.last().resource) {
            d
        } else {
            d.push(s.last().resource)
        }
    }
}

/// Durations of the samples of resource `r`, in order.
pub open spec fn durations_of(s: Seq<EndpointSampleView>, r: Seq<char>) -> Seq<i64>
    decreases s.len(),
{
    if s.len() == 0 {
        Seq::empty()
    } else if s.last().resource == r {
        durations_of(s.drop_last(), r).push(s.last().duration_ns)
    } else {
        durations_of(s.drop_last(), r)
    }
}

/// Number of samples of resource `r` for which `flag` is nonzero.
pub open spec fn flagged(s: Seq<EndpointSampleView>, r: Seq<char>, errors: bool) -> nat
    decreases s.len(),
{
    if s.len() == 0 {
        0
    } else {
        flagged(s.drop_last(), r, errors) + if s.last().resource == r && (if errors {
            s.last().is_error
        } else {
            s.last().has_n_plus_one
        }) != 0 {
            1nat
        } else {
            0nat
        }
    }
}

pub open spec fn sum_i64(s: Seq<i64>) -> int
    decreases s.len(),
{
    if s.len() == 0 {
        0
    } else {
        sum_i64(s.drop_last()) + s.last()
    }
}

/// Kind of the first sample of resource `r` that names one.
pub open spec fn kind_of(s: Seq<EndpointSampleView>, r: Seq<char>) -> Option<Seq<char>>
    decreases s.len(),
{
    if s.len() == 0 {
        None
    } else {
        match kind_of(s.drop_last(), r) {
            Some(k) => Some(k),
            None => if s.last().resource == r {
                s.last().kind
            } else {
                None
            },
        }
    }
}

pub open spec fn endpoint_row(s: Seq<EndpointSampleView>, r: Seq<char>) -> EndpointRowView {
    let d = durations_of(s, r);
    EndpointRowView {
        resource: r,
        count: d.len() as u64,
        error_count: flagged(s, r, true) as u64,
        p50_ns: percentile_of(sort_i64(d), 50),
        p95_ns: percentile_of(sort_i64(d), 95),
        p99_ns: percentile_of(sort_i64(d), 99),
        total_ns: sum_i64(d),
        n_plus_one_count: flagged(s, r, false) as u64,
        kind: match kind_of(s, r) {
            Some(k) => k,
            None => default_kind(),
        },
    }
}

/// Insert `x` into rows ordered by descending p95, after every row whose p95 is not smaller.
pub open spec fn insert_by_p95(rows: Seq<EndpointRowView>, x: EndpointRowView) -> Seq<EndpointRowView>
    decreases rows.len(),
{
    if rows.len() == 0 {
        seq![x]
    } else if rows[0].p95_ns < x.p95_ns {
        seq![x] + rows
    } else {
        seq![rows[0]] + insert_by_p95(rows.drop_first(), x)
    }
}

/// Rows in descending order of p95; rows with equal p95 keep their order.
pub open spec fn sort_by_p95(rows: Seq<EndpointRowView>) -> Seq<EndpointRowView>
    decreases rows.len(),
{
    if rows.len() == 0 {
        rows
    } else {
        insert_by_p95(sort_by_p95(rows.drop_last()), rows.last())
    }
}

/// The endpoint table: one row per resource, slowest p95 first.
pub open spec fn endpoint_rows(s: Seq<EndpointSampleView>) -> Seq<EndpointRowView> {
    sort_by_p95(distinct_resources(s).map_values(|r: Seq<char>| endpoint_row(s, r)))
}

pub open spec fn insert_pos_p95(rows: Seq<EndpointRowView>, x: EndpointRowView) -> int
    decreases rows.len(),
{
    if rows.len() == 0 || rows[0].p95_ns < x.p95_ns {
        0
    } else {
        1 + insert_pos_p95(rows.drop_first(), x)
    }
}

proof fn lemma_insert_pos_p95(rows: Seq<EndpointRowView>, x: EndpointRowView)
    ensures
        0 <= insert_pos_p95(rows, x) <= rows.len(),
        forall|i: int| 0 <= i < insert_pos_p95(rows, x) ==> rows[i].p95_ns >= x.p95_ns,
        insert_pos_p95(rows, x) < rows.len() ==> rows[insert_pos_p95(rows, x)].p95_ns < x.p95_ns,
        insert_by_p95(rows, x) == rows.take(insert_pos_p95(rows, x)) + seq![x] + rows.skip(insert_pos_p95(rows, x)),
    decreases rows.len(),
{
    let p = insert_pos_p95(rows, x);
    if rows.len() > 0 && !(rows[0].p95_ns < x.p95_ns) {
        let t = rows.drop_first();
        lemma_insert_pos_p95(t, x);
        assert forall|i: int| 0 <= i < p implies rows[i].p95_ns >= x.p95_ns by {
            if i > 0 {
                assert(rows[i] == t[i - 1]);
            }
        }
        assert(rows.take(p) + seq![x] + rows.skip(p) =~= seq![rows[0]] + (t.take(p - 1) + seq![x] + t.skip(p - 1)));
    } else {
        assert(rows.take(0) + seq![x] + rows.skip(0) =~= seq![x] + rows);
        if rows.len() == 0 {
            assert(seq![x] + rows =~= seq![x]);
        }
    }
}

fn insert_row(v: &mut Vec<EndpointRow>, x: EndpointRow)
    ensures
        rows_view(final(v)@) == insert_by_p95(rows_view(old(v)@), x@),
{
    let ghost s = rows_view(v@);
    let ghost old_v = v@;
    proof {
        lemma_insert_pos_p95(s, x@);
    }
    let mut pos: usize = 0;
    while pos < v.len() && v[pos].p95_ns >= x.p95_ns
        invariant
            pos <= v.len(),
            v@ == old_v,
            s == rows_view(v@),
            pos <= insert_pos_p95(s, x@),
            forall|i: int| 0 <= i < insert_pos_p95(s, x@) ==> s[i].p95_ns >= x@.p95_ns,
            insert_pos_p95(s, x@) < s.len() ==> s[insert_pos_p95(s, x@)].p95_ns < x@.p95_ns,
            insert_pos_p95(s, x@) <= s.len(),
        decreases v.len() - pos,
    {
        assert(s[pos as int] == v@[pos as int]@);
        pos = pos + 1;
    }
    proof {
        if pos < v.len() {
            assert(s[pos as int] == v@[pos as int]@);
        }
        assert(pos == insert_pos_p95(s, x@));
    }
    let ghost xv = x@;
    v.insert(pos, x);
    assert(rows_view(v@) =~= s.take(pos as int) + seq![xv] + s.skip(pos as int));
}

proof fn lemma_flagged_bound(s: Seq<EndpointSampleView>, r: Seq<char>, errors: bool)
    ensures
        flagged(s, r, errors) <= s.len(),
    decreases s.len(),
{
    if s.len() > 0 {
        lemma_flagged_bound(s.drop_last(), r, errors);
    }
}

proof fn lemma_durations_bound(s: Seq<EndpointSampleView>, r: Seq<char>)
    ensures
        durations_of(s, r).len() <= s.len(),
    decreases s.len(),
{
    if s.len() > 0 {
        lemma_durations_bound(s.drop_last(), r);
    }
}

proof fn lemma_sum_bound(d: Seq<i64>)
    ensures
        -(d.len() as int) * 0x8000_0000_0000_0000 <= sum_i64(d) <= (d.len() as int) * 0x8000_0000_0000_0000,
    decreases d.len(),
{
    if d.len() > 0 {
        lemma_sum_bound(d.drop_last());
    }
}

fn clone_opt(o: &Option<String>) -> (r: Option<String>)
    ensures
        opt_view(r) == opt_view(*o),
{
    match o {
        Some(s) => Some(s.clone()),
        None => None,
    }
}

/// The statistics row of resource `r`.
fn endpoint_row_for(samples: &Vec<EndpointSample>, r: &String) -> (row: EndpointRow)
    ensures
        row@ == endpoint_row(samples_view(samples@), r@),
{
    let ghost all = samples_view(samples@);
    let mut durations: Vec<i64> = Vec::new();
    let mut errors: u64 = 0;
    let mut n1s: u64 = 0;
    let mut total: i128 = 0;
    let mut kind: Option<String> = None;
    let mut i: usize = 0;
    while i < samples.len()
        invariant
            i <= samples.len(),
            all == samples_view(samples@),
            durations@ == durations_of(all.take(i as int), r@),
            errors == flagged(all.take(i as int), r@, true),
            n1s == flagged(all.take(i as int), r@, false),
            total == sum_i64(durations@),
            opt_view(kind) == kind_of(all.take(i as int), r@),
        decreases samples.len() - i,
    {
        let ghost ti = all.take(i as int);
        proof {
            assert(all.take(i + 1).drop_last() =~= ti);
            assert(all.take(i + 1).last() == samples@[i as int]@);
            lemma_flagged_bound(ti, r@, true);
            lemma_flagged_bound(ti, r@, false);
            lemma_durations_bound(ti, r@);
            lemma_sum_bound(durations@);
        }
        let sm = &samples[i];
        if sm.resource == *r {
            let ghost before = durations@;
            durations.push(sm.duration_ns);
            assert(durations@.drop_last() =~= before);
            total = total + sm.duration_ns as i128;
            if sm.is_error != 0 {
                errors = errors + 1;
            }
            if sm.has_n_plus_one != 0 {
                n1s = n1s + 1;
            }
            if kind.is_none() {
                kind = clone_opt(&sm.kind);
            }
        }
        i = i + 1;
    }
    assert(all.take(i as int) =~= all);
    let sorted = sort_durations(&durations);
    proof {
        law_sort_ascending(durations@);
        lemma_durations_bound(all, r@);
    }
    EndpointRow {
        resource: r.clone(),
        count: durations.len() as u64,
        error_count: errors,
        p50_ns: percentile(&sorted, 50),
        p95_ns: percentile(&sorted, 95),
        p99_ns: percentile(&sorted, 99),
        total_ns: total,
        n_plus_one_count: n1s,
        kind: match kind {
            Some(k) => k,
            None => "http.server".to_owned(),
        },
    }
}

/// The resources of the samples, each once, in order of first appearance.
fn resources_of(samples: &Vec<EndpointSample>) -> (rs: Vec<String>)
    ensures
        rs@.map_values(|s: String| s@) == distinct_resources(samples_view(samples@)),
{
    let ghost all = samples_view(samples@);
    let mut rs: Vec<String> = Vec::new();
    let mut i: usize = 0;
    while i < samples.len()
        invariant
            i <= samples.len(),
            all == samples_view(samples@),
            rs@.map_values(|s: String| s@) == distinct_resources(all.take(i as int)),
        decreases samples.len() - i,
    {
        proof {
            assert(all.take(i + 1).drop_last() =~= all.take(i as int));
            assert(all.take(i + 1).last() == samples@[i as int]@);
        }
        let mut found = false;
        let mut c: usize = 0;
        while c < rs.len()
            invariant
                c <= rs.len(),
                i < samples.len(),
                found ==> rs@.map_values(|s: String| s@).contains(samples@[i as int].resource@),
                !found ==> forall|k: int| 0 <= k < c ==> (#[trigger] rs@[k])@ != samples@[i as int].resource@,
            decreases rs.len() - c,
        {
            if !found && rs[c] == samples[i].resource {
                found = true;
                assert(rs@.map_values(|s: String| s@)[c as int] == samples@[i as int].resource@);
            }
            c = c + 1;
        }
        proof {
            let rv = rs@.map_values(|s: String| s@);
            if !found && rv.contains(samples@[i as int].resource@) {
                let k = choose|k: int| 0 <= k < rv.len() && rv[k] == samples@[i as int].resource@;
                assert(rs@[k]@ == samples@[i as int].resource@);
            }
        }
        if !found {
            let ghost before = rs@;
            rs.push(samples[i].resource.clone());
            assert(rs@.map_values(|s: String| s@) =~= before.map_values(|s: String| s@).push(samples@[i as int].resource@));
        }
        i = i + 1;
    }
    assert(all.take(i as int) =~= all);
    rs
}

/// Group stored traces by root resource and compute, per resource, the trace
/// count, error and N+1 counts, p50/p95/p99 and total duration and the kind;
/// rows come slowest p95 first.
pub fn aggregate_endpoints(samples: &Vec<EndpointSample>) -> (rows: Vec<EndpointRow>)
    ensures
        rows_view(rows@) == endpoint_rows(samples_view(samples@)),
{
    let ghost all = samples_view(samples@);
    let rs = resources_of(samples);
    let ghost unsorted = distinct_resources(all).map_values(|r: Seq<char>| endpoint_row(all, r));
    let mut out: Vec<EndpointRow> = Vec::new();
    let mut k: usize = 0;
    while k < rs.len()
        invariant
            k <= rs.len(),
            all == samples_view(samples@),
            rs@.map_values(|s: String| s@) == distinct_resources(all),
            unsorted == distinct_resources(all).map_values(|r: Seq<char>| endpoint_row(all, r)),
            rows_view(out@) == sort_by_p95(unsorted.take(k as int)),
        decreases rs.len() - k,
    {
        let row = endpoint_row_for(samples, &rs[k]);
        proof {
            assert(unsorted.take(k + 1).drop_last() =~= unsorted.take(k as int));
            assert(rs@.map_values(|s: String| s@)[k as int] == rs@[k as int]@);
            assert(unsorted.take(k + 1).last() == row@);
        }
        insert_row(&mut out, row);
        k = k + 1;
    }
    assert(unsorted.take(k as int) =~= unsorted);
    out
}

pub open spec fn p95_descending(rows: Seq<EndpointRowView>) -> bool {
    forall|i: int, j: int| 0 <= i <= j < rows.len() ==> rows[i].p95_ns >= rows[j].p95_ns
}

proof fn lemma_insert_by_p95_keeps_order(rows: Seq<EndpointRowView>, x: EndpointRowView)
    requires
        p95_descending(rows),
    ensures
        p95_descending(insert_by_p95(rows, x)),
        insert_by_p95(rows, x).len() == rows.len() + 1,
{
    lemma_insert_pos_p95(rows, x);
    let p = insert_pos_p95(rows, x);
    let r = insert_by_p95(rows, x);
    assert forall|i: int| 0 <= i < r.len() implies #[trigger] r[i] == (if i < p { rows[i] } else if i == p { x } else { rows[i - 1] }) by {
    }
    assert forall|i: int, j: int| 0 <= i <= j < r.len() implies r[i].p95_ns >= r[j].p95_ns by {
        assert(r[i] == (if i < p { rows[i] } else if i == p { x } else { rows[i - 1] }));
        assert(r[j] == (if j < p { rows[j] } else if j == p { x } else { rows[j - 1] }));
        if i < p && j > p {
            assert(rows[p].p95_ns < x.p95_ns);
            assert(rows[p].p95_ns >= rows[j - 1].p95_ns);
        } else if i == p && j > p {
            assert(rows[p].p95_ns < x.p95_ns);
            assert(rows[p].p95_ns >= rows[j - 1].p95_ns);
        }
    }
}

proof fn lemma_sort_by_p95(rows: Seq<EndpointRowView>)
    ensures
        p95_descending(sort_by_p95(rows)),
        sort_by_p95(rows).len() == rows.len(),
    decreases rows.len(),
{
    if rows.len() > 0 {
        lemma_sort_by_p95(rows.drop_last());
        lemma_insert_by_p95_keeps_order(sort_by_p95(rows.drop_last()), rows.last());
    }
}

/// Law: the endpoint table lists each resource once, slowest p95 first.
pub proof fn law_endpoints_slowest_first(s: Seq<EndpointSampleView>)
    ensures
        p95_descending(endpoint_rows(s)),
        endpoint_rows(s).len() == distinct_resources(s).len(),
{
    lemma_sort_by_p95(distinct_resources(s).map_values(|r: Seq<char>| endpoint_row(s, r)));
}

proof fn lemma_flagged_within_count(s: Seq<EndpointSampleView>, r: Seq<char>, errors: bool)
    ensures
        flagged(s, r, errors) <= durations_of(s, r).len(),
    decreases s.len(),
{
    if s.len() > 0 {
        lemma_flagged_within_count(s.drop_last(), r, errors);
    }
}

/// Law: an endpoint's error count and N+1 count never exceed its trace count.
pub proof fn law_endpoint_counts_bounded(s: Seq<EndpointSampleView>, r: Seq<char>)
    requires
        s.len() <= u64::MAX,
    ensures
        endpoint_row(s, r).error_count <= endpoint_row(s, r).count,
        endpoint_row(s, r).n_plus_one_count <= endpoint_row(s, r).count,
{
    lemma_flagged_within_count(s, r, true);
    lemma_flagged_within_count(s, r, false);
    lemma_durations_bound(s, r);
}

proof fn lemma_insert_by_p95_members(rows: Seq<EndpointRowView>, x: EndpointRowView)
    ensures
        forall|v: EndpointRowView| #[trigger] insert_by_p95(rows, x).contains(v) ==> v == x || rows.contains(v),
    decreases rows.len(),
{
    if rows.len() > 0 && !(rows[0].p95_ns < x.p95_ns) {
        let rest = rows.drop_first();
        lemma_insert_by_p95_members(rest, x);
        assert forall|v: EndpointRowView| #[trigger] insert_by_p95(rows, x).contains(v) implies v == x || rows.contains(v) by {
            let out = insert_by_p95(rows, x);
            let i = choose|i: int| 0 <= i < out.len() && out[i] == v;
            if i == 0 {
                assert(rows[0] == v);
            } else {
                assert(insert_by_p95(rest, x)[i - 1] == v);
                assert(insert_by_p95(rest, x).contains(v));
                if rest.contains(v) {
                    let j = choose|j: int| 0 <= j < rest.len() && rest[j] == v;
                    assert(rows[j + 1] == v);
                }
            }
        }
    } else if rows.len() > 0 {
        assert forall|v: EndpointRowView| #[trigger] insert_by_p95(rows, x).contains(v) implies v == x || rows.contains(v) by {
            let out = insert_by_p95(rows, x);
            let i = choose|i: int| 0 <= i < out.len() && out[i] == v;
            if i > 0 {
                assert(rows[i - 1] == v);
            }
        }
    } else {
        assert forall|v: EndpointRowView| #[trigger] insert_by_p95(rows, x).contains(v) implies v == x || rows.contains(v) by {
            let out = insert_by_p95(rows, x);
            let i = choose|i: int| 0 <= i < out.len() && out[i] == v;
            assert(i == 0);
        }
    }
}

proof fn lemma_sort_by_p95_members(rows: Seq<EndpointRowView>)
    ensures
        forall|v: EndpointRowView| #[trigger] sort_by_p95(rows).contains(v) ==> rows.contains(v),
    decreases rows.len(),
{
    if rows.len() > 0 {
        let init = rows.drop_last();
        lemma_sort_by_p95_members(init);
        lemma_insert_by_p95_members(sort_by_p95(init), rows.last());
        assert forall|v: EndpointRowView| #[trigger] sort_by_p95(rows).contains(v) implies rows.contains(v) by {
            if v == rows.last() {
                assert(rows[rows.len() - 1] == v);
            } else {
                assert(sort_by_p95(init).contains(v));
                let j = choose|j: int| 0 <= j < init.len() && init[j] == v;
                assert(rows[j] == v);
            }
        }
    }
}

/// Law: each row of the endpoint table is the row of its own resource, so the
/// statistics below hold of every row the table lists.
pub proof fn law_endpoint_rows_match_resource(s: Seq<EndpointSampleView>, i: int)
    requires
        0 <= i < endpoint_rows(s).len(),
    ensures
        endpoint_rows(s)[i] == endpoint_row(s, endpoint_rows(s)[i].resource),
        distinct_resources(s).contains(endpoint_rows(s)[i].resource),
{
    let unsorted = distinct_resources(s).map_values(|r: Seq<char>| endpoint_row(s, r));
    lemma_sort_by_p95_members(unsorted);
    let v = endpoint_rows(s)[i];
    assert(endpoint_rows(s).contains(v));
    let j = choose|j: int| 0 <= j < unsorted.len() && unsorted[j] == v;
    assert(unsorted[j] == endpoint_row(s, distinct_resources(s)[j]));
    assert(distinct_resources(s)[j] == v.resource);
}

proof fn lemma_rank_in_range(m: int, p: int)
    requires
        m >= 0,
        0 <= p <= 100,
    ensures
        0 <= (m * p + 50) / 100 <= m,
{
    assert(0 <= m * p <= m * 100) by (nonlinear_arith)
        requires
            m >= 0,
            0 <= p <= 100,
    ;
}

/// Law: with the durations of resource `r` in ascending order, an endpoint's
/// p50, p95 and p99 are the durations at the rounded ranks (n - 1) * 50 / 100,
/// (n - 1) * 95 / 100 and (n - 1) * 99 / 100 (halves rounded up), each
/// computed on its own; an endpoint with no durations reports zero.
pub proof fn law_endpoint_percentiles(s: Seq<EndpointSampleView>, r: Seq<char>)
    ensures
        ({
            let d = sort_i64(durations_of(s, r));
            let n = d.len() as int;
            let row = endpoint_row(s, r);
            &&& n == 0 ==> row.p50_ns == 0 && row.p95_ns == 0 && row.p99_ns == 0
            &&& n >= 1 ==> row.p50_ns == d[((n - 1) * 50 + 50) / 100]
            &&& n >= 1 ==> row.p95_ns == d[((n - 1) * 95 + 50) / 100]
            &&& n >= 1 ==> row.p99_ns == d[((n - 1) * 99 + 50) / 100]
        }),
{
    let d = sort_i64(durations_of(s, r));
    let n = d.len() as int;
    if n >= 1 {
        lemma_rank_in_range(n - 1, 50);
        lemma_rank_in_range(n - 1, 95);
        lemma_rank_in_range(n - 1, 99);
    }
}

} // verus!
