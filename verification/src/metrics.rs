//! Request, latency, cache and acceptance statistics.
use std::collections::VecDeque;
use vstd::prelude::*;

use crate::seqs::{keep_last, lemma_filter_all, lemma_filter_none, lemma_keep_last_push};

verus! {

broadcast use vstd::seq_lib::group_filter_ensures;

/// The number of latency samples of each kind that are kept.
pub const MAX_LATENCY_SAMPLES: usize = 1000;

/// The samples of `s` below `v`.
pub open spec fn below(s: Seq<u64>, v: u64) -> Seq<u64> {
    s.filter(|x: u64| x < v)
}

/// The samples of `s` at most `v`.
pub open spec fn at_most(s: Seq<u64>, v: u64) -> Seq<u64> {
    s.filter(|x: u64| x <= v)
}

/// `r` is the sample of rank `k` (from 0) of `s` in ascending order: fewer
/// than `k + 1` samples lie below it and more than `k` lie at or below it.
pub open spec fn is_rank(s: Seq<u64>, k: nat, r: u64) -> bool {
    below(s, r).len() <= k < at_most(s, r).len()
}

/// The rank that percentile `p` of `len` samples reads: `len * p / 100`,
/// and at most the last one.
pub open spec fn percentile_rank(len: nat, p: nat) -> nat {
    let k = len * p / 100;
    if k < len {
        k
    } else {
        (len - 1) as nat
    }
}

/// Ascending order.
pub open spec fn ascending(s: Seq<u64>) -> bool {
    forall|i: int, j: int| 0 <= i < j < s.len() ==> s[i] <= s[j]
}

/// The abstract state of the metrics.
pub struct MetricsView {
    pub total_requests: nat,
    pub instant_latencies: Seq<u64>,
    pub refined_latencies: Seq<u64>,
    pub cache_hits: nat,
    pub cache_misses: nat,
    pub accepts: nat,
}

/// Counters and the latest latency samples of the engine.
pub struct Metrics {
    total_requests: u64,
    instant_latencies: VecDeque<u64>,
    refined_latencies: VecDeque<u64>,
    cache_hits: u64,
    cache_misses: u64,
    accepts: u64,
}

/// A point-in-time summary of the metrics: the counters and the median and
/// 95th-percentile latencies (0 when there is no sample).
#[derive(Debug, Clone, Copy)]
pub struct MetricsSnapshot {
    pub total_requests: u64,
    pub instant_latency_p50_ms: u64,
    pub instant_latency_p95_ms: u64,
    pub refined_latency_p50_ms: u64,
    pub refined_latency_p95_ms: u64,
    pub cache_hits: u64,
    pub cache_misses: u64,
    pub accepts: u64,
}

impl View for Metrics {
    type V = MetricsView;

    closed spec fn view(&self) -> MetricsView {
        MetricsView {
            total_requests: self.total_requests as nat,
            instant_latencies: self.instant_latencies@,
            refined_latencies: self.refined_latencies@,
            cache_hits: self.cache_hits as nat,
            cache_misses: self.cache_misses as nat,
            accepts: self.accepts as nat,
        }
    }
}

/// What `percentile` reads from the samples `s`: 0 when there is none, else
/// the sample of rank `percentile_rank(|s|, p)`.
pub open spec fn percentile_of(s: Seq<u64>, p: nat, r: u64) -> bool {
    if s.len() == 0 {
        r == 0
    } else {
        is_rank(s, percentile_rank(s.len(), p), r)
    }
}

/// A recording call on the metrics.
pub enum MetricsEvent {
    Request,
    InstantLatency(u64),
    RefinedLatency(u64),
    CacheHit,
    CacheMiss,
    Accept,
}

/// The metrics of a fresh `Metrics`.
pub open spec fn initial_view() -> MetricsView {
    MetricsView {
        total_requests: 0,
        instant_latencies: Seq::empty(),
        refined_latencies: Seq::empty(),
        cache_hits: 0,
        cache_misses: 0,
        accepts: 0,
    }
}

/// The metrics after one recording call: a counter goes up by one, or the
/// latency joins its samples, of which the latest `MAX_LATENCY_SAMPLES` stay.
pub open spec fn apply_event(v: MetricsView, e: MetricsEvent) -> MetricsView {
    match e {
        MetricsEvent::Request => MetricsView { total_requests: v.total_requests + 1, ..v },
        MetricsEvent::InstantLatency(x) => MetricsView {
            instant_latencies: keep_last(v.instant_latencies.push(x), MAX_LATENCY_SAMPLES as nat),
            ..v
        },
        MetricsEvent::RefinedLatency(x) => MetricsView {
            refined_latencies: keep_last(v.refined_latencies.push(x), MAX_LATENCY_SAMPLES as nat),
            ..v
        },
        MetricsEvent::CacheHit => MetricsView { cache_hits: v.cache_hits + 1, ..v },
        MetricsEvent::CacheMiss => MetricsView { cache_misses: v.cache_misses + 1, ..v },
        MetricsEvent::Accept => MetricsView { accepts: v.accepts + 1, ..v },
    }
}

/// The metrics after the recording calls `evs`, in order, from `v`.
pub open spec fn replay(v: MetricsView, evs: Seq<MetricsEvent>) -> MetricsView
    decreases evs.len(),
{
    if evs.len() == 0 {
        v
    } else {
        apply_event(replay(v, evs.drop_last()), evs.last())
    }
}

/// The latencies given to `record_instant_latency` among `evs`, in order.
pub open spec fn instant_values(evs: Seq<MetricsEvent>) -> Seq<u64>
    decreases evs.len(),
{
    if evs.len() == 0 {
        seq![]
    } else {
        match evs.last() {
            MetricsEvent::InstantLatency(x) => instant_values(evs.drop_last()).push(x),
            _ => instant_values(evs.drop_last()),
        }
    }
}

/// The latencies given to `record_refined_latency` among `evs`, in order.
pub open spec fn refined_values(evs: Seq<MetricsEvent>) -> Seq<u64>
    decreases evs.len(),
{
    if evs.len() == 0 {
        seq![]
    } else {
        match evs.last() {
            MetricsEvent::RefinedLatency(x) => refined_values(evs.drop_last()).push(x),
            _ => refined_values(evs.drop_last()),
        }
    }
}

/// Law: after any recording calls on fresh metrics, each counter is the
/// number of its calls, and the samples of each kind are the latest
/// `MAX_LATENCY_SAMPLES` latencies of that kind, in the order given.
pub proof fn lemma_replay(evs: Seq<MetricsEvent>)
    ensures
        replay(initial_view(), evs).total_requests == evs.filter(
            |e: MetricsEvent| e is Request,
        ).len(),
        replay(initial_view(), evs).cache_hits == evs.filter(|e: MetricsEvent| e is CacheHit).len(),
        replay(initial_view(), evs).cache_misses == evs.filter(
            |e: MetricsEvent| e is CacheMiss,
        ).len(),
        replay(initial_view(), evs).accepts == evs.filter(|e: MetricsEvent| e is Accept).len(),
        replay(initial_view(), evs).instant_latencies == keep_last(
            instant_values(evs),
            MAX_LATENCY_SAMPLES as nat,
        ),
        replay(initial_view(), evs).refined_latencies == keep_last(
            refined_values(evs),
            MAX_LATENCY_SAMPLES as nat,
        ),
    decreases evs.len(),
{
    if evs.len() > 0 {
        let p = evs.drop_last();
        let e = evs.last();
        lemma_replay(p);
        assert(evs == p.push(e));
        p.lemma_filter_push(e, |e: MetricsEvent| e is Request);
        p.lemma_filter_push(e, |e: MetricsEvent| e is CacheHit);
        p.lemma_filter_push(e, |e: MetricsEvent| e is CacheMiss);
        p.lemma_filter_push(e, |e: MetricsEvent| e is Accept);
        lemma_keep_last_push(instant_values(p), e->InstantLatency_0, MAX_LATENCY_SAMPLES as nat);
        lemma_keep_last_push(refined_values(p), e->RefinedLatency_0, MAX_LATENCY_SAMPLES as nat);
    }
}

/// The samples `samples` with `x` added, the latest `MAX_LATENCY_SAMPLES` kept.
fn push_sample(samples: VecDeque<u64>, x: u64) -> (r: VecDeque<u64>)
    requires
        samples@.len() <= MAX_LATENCY_SAMPLES,
    ensures
        r@ == keep_last(samples@.push(x), MAX_LATENCY_SAMPLES as nat),
        r@.len() <= MAX_LATENCY_SAMPLES,
{
    let mut samples = samples;
    let ghost before = samples@;
    if samples.len() == MAX_LATENCY_SAMPLES {
        samples.pop_front();
    }
    samples.push_back(x);
    assert(samples@ == keep_last(before.push(x), MAX_LATENCY_SAMPLES as nat));
    samples
}

impl Metrics {
    /// At most `MAX_LATENCY_SAMPLES` samples of each kind.
    #[verifier::type_invariant]
    spec fn wf(&self) -> bool {
        &&& self.instant_latencies@.len() <= MAX_LATENCY_SAMPLES
        &&& self.refined_latencies@.len() <= MAX_LATENCY_SAMPLES
    }

    /// Zero counters and no samples.
    pub fn new() -> (r: Self)
        ensures
            r@ == initial_view(),
    {
        Self {
            total_requests: 0,
            instant_latencies: VecDeque::new(),
            refined_latencies: VecDeque::new(),
            cache_hits: 0,
            cache_misses: 0,
            accepts: 0,
        }
    }

    /// The number of requests recorded.
    pub fn total_requests(&self) -> (n: u64)
        ensures
            n == self@.total_requests,
    {
        self.total_requests
    }

    /// The number of cache hits recorded.
    pub fn cache_hits(&self) -> (n: u64)
        ensures
            n == self@.cache_hits,
    {
        self.cache_hits
    }

    /// The number of cache misses recorded.
    pub fn cache_misses(&self) -> (n: u64)
        ensures
            n == self@.cache_misses,
    {
        self.cache_misses
    }

    /// The number of accepted suggestions recorded.
    pub fn accepts(&self) -> (n: u64)
        ensures
            n == self@.accepts,
    {
        self.accepts
    }

    /// Counts one request.
    pub fn record_request(&mut self)
        requires
            old(self)@.total_requests < u64::MAX,
        ensures
            final(self)@ == apply_event(old(self)@, MetricsEvent::Request),
    {
        proof {
            use_type_invariant(&*self);
        }
        self.total_requests = self.total_requests + 1;
    }

    /// Records an instant latency, keeping the latest `MAX_LATENCY_SAMPLES`.
    pub fn record_instant_latency(&mut self, latency_ms: u64)
        ensures
            final(self)@.instant_latencies.len() <= MAX_LATENCY_SAMPLES,
            final(self)@ == apply_event(old(self)@, MetricsEvent::InstantLatency(latency_ms)),
    {
        proof {
            use_type_invariant(&*self);
        }
        let mut samples = VecDeque::new();
        std::mem::swap(&mut samples, &mut self.instant_latencies);
        self.instant_latencies = push_sample(samples, latency_ms);
    }

    /// Records a refined latency, keeping the latest `MAX_LATENCY_SAMPLES`.
    pub fn record_refined_latency(&mut self, latency_ms: u64)
        ensures
            final(self)@.refined_latencies.len() <= MAX_LATENCY_SAMPLES,
            final(self)@ == apply_event(old(self)@, MetricsEvent::RefinedLatency(latency_ms)),
    {
        proof {
            use_type_invariant(&*self);
        }
        let mut samples = VecDeque::new();
        std::mem::swap(&mut samples, &mut self.refined_latencies);
        self.refined_latencies = push_sample(samples, latency_ms);
    }

    /// Counts one cache hit.
    pub fn record_cache_hit(&mut self)
        requires
            old(self)@.cache_hits < u64::MAX,
        ensures
            final(self)@ == apply_event(old(self)@, MetricsEvent::CacheHit),
    {
        proof {
            use_type_invariant(&*self);
        }
        self.cache_hits = self.cache_hits + 1;
    }

    /// Counts one cache miss.
    pub fn record_cache_miss(&mut self)
        requires
            old(self)@.cache_misses < u64::MAX,
        ensures
            final(self)@ == apply_event(old(self)@, MetricsEvent::CacheMiss),
    {
        proof {
            use_type_invariant(&*self);
        }
        self.cache_misses = self.cache_misses + 1;
    }

    /// Counts one accepted suggestion.
    pub fn record_accept(&mut self)
        requires
            old(self)@.accepts < u64::MAX,
        ensures
            final(self)@ == apply_event(old(self)@, MetricsEvent::Accept),
    {
        proof {
            use_type_invariant(&*self);
        }
        self.accepts = self.accepts + 1;
    }

    /// The counters with the median and 95th-percentile latency of each kind.
    pub fn snapshot(&self) -> (r: MetricsSnapshot)
        ensures
            r.total_requests == self@.total_requests,
            percentile_of(self@.instant_latencies, 50, r.instant_latency_p50_ms),
            percentile_of(self@.instant_latencies, 95, r.instant_latency_p95_ms),
            percentile_of(self@.refined_latencies, 50, r.refined_latency_p50_ms),
            percentile_of(self@.refined_latencies, 95, r.refined_latency_p95_ms),
            r.cache_hits == self@.cache_hits,
            r.cache_misses == self@.cache_misses,
            r.accepts == self@.accepts,
            r.instant_latency_p50_ms <= r.instant_latency_p95_ms,
            r.refined_latency_p50_ms <= r.refined_latency_p95_ms,
    {
        proof {
            use_type_invariant(self);
        }
        let instant_p50 = Self::percentile(&self.instant_latencies, 50);
        let instant_p95 = Self::percentile(&self.instant_latencies, 95);
        let refined_p50 = Self::percentile(&self.refined_latencies, 50);
        let refined_p95 = Self::percentile(&self.refined_latencies, 95);
        proof {
            lemma_percentile_monotone(self@.instant_latencies, 50, 95, instant_p50, instant_p95);
            lemma_percentile_monotone(self@.refined_latencies, 50, 95, refined_p50, refined_p95);
        }
        MetricsSnapshot {
            total_requests: self.total_requests,
            instant_latency_p50_ms: instant_p50,
            instant_latency_p95_ms: instant_p95,
            refined_latency_p50_ms: refined_p50,
            refined_latency_p95_ms: refined_p95,
            cache_hits: self.cache_hits,
            cache_misses: self.cache_misses,
            accepts: self.accepts,
        }
    }

    /// The sample of rank `min(len * percentile / 100, len - 1)` in ascending
    /// order, or 0 when there is no sample.
    pub fn percentile(values: &VecDeque<u64>, percentile: usize) -> (r: u64)
        requires
            values@.len() * percentile <= usize::MAX,
        ensures
            percentile_of(values@, percentile as nat, r),
    {
        if values.len() == 0 {
            return 0;
        }
        let sorted = sorted_copy(values);
        let n = sorted.len();
        let k = n * percentile / 100;
        let index = if k < n { k } else { n - 1 };
        proof {
            lemma_rank_of_ascending(sorted@, index as nat);
            assert(below(sorted@, sorted@[index as int]).len() == below(values@, sorted@[index as int]).len());
            assert(at_most(sorted@, sorted@[index as int]).len() == at_most(values@, sorted@[index as int]).len());
        }
        sorted[index]
    }
}

impl Default for Metrics {
    fn default() -> (r: Self)
        ensures
            r@ == initial_view(),
    {
        Self::new()
    }
}

/// A predicate that every element meeting `p` meets keeps at least as many.
pub proof fn lemma_filter_len_mono(s: Seq<u64>, p: spec_fn(u64) -> bool, q: spec_fn(u64) -> bool)
    requires
        forall|i: int| 0 <= i < s.len() && p(#[trigger] s[i]) ==> q(s[i]),
    ensures
        s.filter(p).len() <= s.filter(q).len(),
    decreases s.len(),
{
    if s.len() > 0 {
        let t = s.drop_last();
        assert(s == t.push(s.last()));
        t.lemma_filter_push(s.last(), p);
        t.lemma_filter_push(s.last(), q);
        assert forall|i: int| 0 <= i < t.len() && p(#[trigger] t[i]) implies q(t[i]) by {
            assert(t[i] == s[i]);
        }
        lemma_filter_len_mono(t, p, q);
    }
}

/// An element that fails `p` makes the filtered sequence shorter.
pub proof fn lemma_filter_len_lt(s: Seq<u64>, p: spec_fn(u64) -> bool, i: int)
    requires
        0 <= i < s.len(),
        !p(s[i]),
    ensures
        s.filter(p).len() < s.len(),
    decreases s.len(),
{
    let t = s.drop_last();
    assert(s == t.push(s.last()));
    t.lemma_filter_push(s.last(), p);
    t.lemma_filter_len(p);
    if i < s.len() - 1 {
        assert(t[i] == s[i]);
        lemma_filter_len_lt(t, p, i);
    }
}

/// A sample of some rank is one of the samples.
pub proof fn lemma_rank_member(s: Seq<u64>, k: nat, r: u64)
    requires
        is_rank(s, k, r),
    ensures
        s.contains(r),
{
    if !s.contains(r) {
        assert forall|i: int| 0 <= i < s.len() && (|x: u64| x <= r)(#[trigger] s[i]) implies (|x: u64|
            x < r)(s[i]) by {
            assert(s[i] != r);
        }
        lemma_filter_len_mono(s, |x: u64| x <= r, |x: u64| x < r);
    }
}

/// A higher rank never reads a smaller sample.
pub proof fn lemma_rank_monotone(s: Seq<u64>, k1: nat, k2: nat, r1: u64, r2: u64)
    requires
        k1 <= k2,
        is_rank(s, k1, r1),
        is_rank(s, k2, r2),
    ensures
        r1 <= r2,
{
    if r2 < r1 {
        lemma_filter_len_mono(s, |x: u64| x <= r2, |x: u64| x < r1);
    }
}

/// Law: the rank that percentile `p` of `len > 0` samples reads is the floor
/// of `len * p / 100`, capped at the last sample: below 100 it is the largest
/// `k` with `100 * k <= len * p`, and from 100 up it is `len - 1`.
pub proof fn lemma_percentile_rank_floor(len: nat, p: nat)
    requires
        len > 0,
    ensures
        percentile_rank(len, p) < len,
        p < 100 ==> percentile_rank(len, p) * 100 <= len * p < (percentile_rank(len, p) + 1)
            * 100,
        p >= 100 ==> percentile_rank(len, p) == len - 1,
{
    let k = len * p / 100;
    assert(k * 100 <= len * p < (k + 1) * 100) by (nonlinear_arith)
        requires
            k == len * p / 100,
    ;
    if p < 100 {
        assert(len * p < len * 100) by (nonlinear_arith)
            requires
                p < 100,
                len > 0,
        ;
        assert(k < len) by (nonlinear_arith)
            requires
                k * 100 <= len * p,
                len * p < len * 100,
        ;
    } else {
        assert(len * p >= len * 100) by (nonlinear_arith)
            requires
                p >= 100,
        ;
        assert(k >= len) by (nonlinear_arith)
            requires
                len * p >= len * 100,
                len * p < (k + 1) * 100,
        ;
    }
}

/// A higher percentile reads a rank no lower.
pub proof fn lemma_percentile_rank_monotone(len: nat, p1: nat, p2: nat)
    requires
        len > 0,
        p1 <= p2,
    ensures
        percentile_rank(len, p1) <= percentile_rank(len, p2),
{
    assert(len * p1 <= len * p2) by (nonlinear_arith)
        requires
            p1 <= p2,
    ;
    assert(len * p1 / 100 <= len * p2 / 100) by (nonlinear_arith)
        requires
            len * p1 <= len * p2,
    ;
}

/// Law: a higher percentile never reads a smaller latency, and each reads
/// one of the samples (or 0 when there is none).
pub proof fn lemma_percentile_monotone(s: Seq<u64>, p1: nat, p2: nat, r1: u64, r2: u64)
    requires
        p1 <= p2,
        percentile_of(s, p1, r1),
        percentile_of(s, p2, r2),
    ensures
        r1 <= r2,
        s.len() > 0 ==> s.contains(r1) && s.contains(r2),
{
    if s.len() > 0 {
        lemma_percentile_rank_monotone(s.len(), p1, p2);
        lemma_rank_monotone(
            s,
            percentile_rank(s.len(), p1),
            percentile_rank(s.len(), p2),
            r1,
            r2,
        );
        lemma_rank_member(s, percentile_rank(s.len(), p1), r1);
        lemma_rank_member(s, percentile_rank(s.len(), p2), r2);
    }
}

/// Law: percentile 0 reads the smallest sample and percentile 100 the largest.
pub proof fn lemma_percentile_extremes(s: Seq<u64>, r0: u64, r100: u64)
    requires
        s.len() > 0,
        percentile_of(s, 0, r0),
        percentile_of(s, 100, r100),
    ensures
        s.contains(r0),
        s.contains(r100),
        forall|i: int| 0 <= i < s.len() ==> r0 <= #[trigger] s[i] && s[i] <= r100,
{
    assert(s.len() * 0 / 100 == 0) by (nonlinear_arith);
    assert(s.len() * 100 / 100 == s.len()) by (nonlinear_arith);
    lemma_rank_member(s, 0, r0);
    lemma_rank_member(s, (s.len() - 1) as nat, r100);
    assert forall|i: int| 0 <= i < s.len() implies r0 <= #[trigger] s[i] && s[i] <= r100 by {
        if s[i] < r0 {
            s.lemma_filter_contains(|x: u64| x < r0, i);
        }
        if s[i] > r100 {
            lemma_filter_len_lt(s, |x: u64| x <= r100, i);
        }
    }
}

/// In an ascending sequence the element at `k` has rank `k`.
pub proof fn lemma_rank_of_ascending(t: Seq<u64>, k: nat)
    requires
        ascending(t),
        k < t.len(),
    ensures
        is_rank(t, k, t[k as int]),
{
    let v = t[k as int];
    let a = t.take(k as int);
    let b = t.skip(k as int);
    assert(t == a + b);
    let lt = |x: u64| x < v;
    let le = |x: u64| x <= v;
    Seq::filter_distributes_over_add(a, b, lt);
    assert forall|i: int| 0 <= i < b.len() implies !lt(#[trigger] b[i]) by {
        assert(b[i] == t[k + i]);
    }
    lemma_filter_none(b, lt);
    a.lemma_filter_len(lt);
    let a1 = t.take(k + 1int);
    let b1 = t.skip(k + 1int);
    assert(t == a1 + b1);
    Seq::filter_distributes_over_add(a1, b1, le);
    assert forall|i: int| 0 <= i < a1.len() implies le(#[trigger] a1[i]) by {
        assert(a1[i] == t[i]);
    }
    lemma_filter_all(a1, le);
}

/// Inserting `x` adds one to the counts below and at most every `v` that
/// `x` is below or at most, and leaves the others.
pub proof fn lemma_counts_insert(s: Seq<u64>, p: int, x: u64, v: u64)
    requires
        0 <= p <= s.len(),
    ensures
        below(s.insert(p, x), v).len() == below(s, v).len() + if x < v { 1int } else { 0 },
        at_most(s.insert(p, x), v).len() == at_most(s, v).len() + if x <= v { 1int } else { 0 },
{
    let a = s.subrange(0, p);
    let b = s.subrange(p, s.len() as int);
    assert(s == a + b);
    assert(s.insert(p, x) == a.push(x) + b);
    let lt = |y: u64| y < v;
    let le = |y: u64| y <= v;
    Seq::filter_distributes_over_add(a, b, lt);
    Seq::filter_distributes_over_add(a.push(x), b, lt);
    Seq::filter_distributes_over_add(a, b, le);
    Seq::filter_distributes_over_add(a.push(x), b, le);
    a.lemma_filter_push(x, lt);
    a.lemma_filter_push(x, le);
}

/// The samples of `values` in ascending order.
fn sorted_copy(values: &VecDeque<u64>) -> (r: Vec<u64>)
    ensures
        ascending(r@),
        r@.len() == values@.len(),
        forall|v: u64| #[trigger] below(r@, v).len() == below(values@, v).len(),
        forall|v: u64| #[trigger] at_most(r@, v).len() == at_most(values@, v).len(),
{
    let mut out: Vec<u64> = Vec::new();
    let mut i: usize = 0;
    while i < values.len()
        invariant
            i <= values@.len(),
            out@.len() == i,
            ascending(out@),
            forall|v: u64| #[trigger] below(out@, v).len() == below(values@.take(i as int), v).len(),
            forall|v: u64| #[trigger] at_most(out@, v).len() == at_most(values@.take(i as int), v).len(),
        decreases values@.len() - i,
    {
        let x = values[i];
        let mut p: usize = 0;
        while p < out.len() && out[p] <= x
            invariant
                p <= out@.len(),
                forall|a: int| 0 <= a < p ==> out@[a] <= x,
            decreases out.len() - p,
        {
            p += 1;
        }
        let ghost o = out@;
        proof {
            assert(values@.take(i + 1) == values@.take(i as int).push(x));
            assert forall|v: u64| #[trigger] below(o.insert(p as int, x), v).len() == below(
                values@.take(i + 1),
                v,
            ).len() by {
                lemma_counts_insert(o, p as int, x, v);
                values@.take(i as int).lemma_filter_push(x, |y: u64| y < v);
            }
            assert forall|v: u64| #[trigger] at_most(o.insert(p as int, x), v).len() == at_most(
                values@.take(i + 1),
                v,
            ).len() by {
                lemma_counts_insert(o, p as int, x, v);
                values@.take(i as int).lemma_filter_push(x, |y: u64| y <= v);
            }
        }
        out.insert(p, x);
        proof {
            assert(out@ == o.insert(p as int, x));
            assert forall|a: int, b: int| 0 <= a < b < out@.len() implies out@[a] <= out@[b] by {
                if p < o.len() {
                    assert(o[p as int] > x);
                }
                let a0 = if a < p { a } else if a == p { -1 } else { a - 1 };
                let b0 = if b < p { b } else if b == p { -1 } else { b - 1 };
                if a0 >= 0 {
                    assert(out@[a] == o[a0]);
                }
                if b0 >= 0 {
                    assert(out@[b] == o[b0]);
                }
            }
        }
        i += 1;
    }
    assert(values@.take(values@.len() as int) == values@);
    out
}

} // verus!
