//! The cache module dictates how metrics are buffered before being handed to
//! the corresponding backend.
//!
//! The cache owns a name-interning table: each bucket name is stored once and
//! every bucket collection is a column indexed by the name's handle. Its
//! mathematical view is a set of maps from names to bucket contents.

use vstd::prelude::*;
use vstd::pervasive::VecAdditionalExecFns;
use vstd::slice::slice_to_vec;

use crate::num::{sat_add_i64, sat_add_spec, MAX_UNITS, SCALE};
use crate::parse::{Metric, MetricModel, MetricType};
use crate::stats::{int_seq, stats_of, StatsModel, TimerData};

verus! {

// ---------------------------------------------------------------------------
// The interning table and its map view
// ---------------------------------------------------------------------------
/// Pairwise-distinct interned names.
pub open spec fn distinct_names(names: Seq<Seq<u8>>) -> bool {
    forall|i: int, j: int| 0 <= i < j < names.len() ==> names[i] != names[j]
}

/// The handle of an interned name.
pub open spec fn idx_of(names: Seq<Seq<u8>>, k: Seq<u8>) -> int {
    choose|i: int| 0 <= i < names.len() && names[i] == k
}

/// Whether a column holds an entry for the name `k`.
pub open spec fn col_has<T>(names: Seq<Seq<u8>>, col: Seq<Option<T>>, k: Seq<u8>) -> bool {
    exists|i: int| 0 <= i < names.len() && names[i] == k && col[i] is Some
}

/// The map from names to entries that one column of the table holds.
pub open spec fn col_map<T>(names: Seq<Seq<u8>>, col: Seq<Option<T>>) -> Map<Seq<u8>, T> {
    Map::new(
        |k: Seq<u8>| col_has(names, col, k),
        |k: Seq<u8>|
            match col[idx_of(names, k)] {
                Some(v) => v,
                None => col[idx_of(names, k)]->Some_0,
            },
    )
}

/// With distinct names, a name's handle is unique.
pub proof fn lemma_idx_of(names: Seq<Seq<u8>>, k: Seq<u8>, h: int)
    requires
        distinct_names(names),
        0 <= h < names.len(),
        names[h] == k,
    ensures
        idx_of(names, k) == h,
{
    assert(0 <= h < names.len() && names[h] == k);
    let i = idx_of(names, k);
    assert(0 <= i < names.len() && names[i] == k);
}

/// Reading one column slot through the map view.
pub proof fn lemma_col_get<T>(names: Seq<Seq<u8>>, col: Seq<Option<T>>, h: int)
    requires
        distinct_names(names),
        col.len() == names.len(),
        0 <= h < names.len(),
    ensures
        col[h] is Some ==> col_map(names, col).contains_key(names[h]) && col_map(names, col)[
            names[h]] == col[h]->Some_0,
        col[h] is None ==> !col_map(names, col).contains_key(names[h]),
{
    let k = names[h];
    if col[h] is Some {
        assert(col_has(names, col, k));
        lemma_idx_of(names, k, h);
    } else {
        if col_has(names, col, k) {
            let i = choose|i: int| 0 <= i < names.len() && names[i] == k && col[i] is Some;
            assert(i == h);
        }
    }
}

/// A name that is not interned has no entry in any column.
pub proof fn lemma_col_absent<T>(names: Seq<Seq<u8>>, col: Seq<Option<T>>, k: Seq<u8>)
    requires
        forall|i: int| 0 <= i < names.len() ==> names[i] != k,
    ensures
        !col_map(names, col).contains_key(k),
{
}

/// Writing one column slot inserts under that slot's name.
pub proof fn lemma_col_update<T>(names: Seq<Seq<u8>>, col: Seq<Option<T>>, h: int, v: T)
    requires
        distinct_names(names),
        col.len() == names.len(),
        0 <= h < names.len(),
    ensures
        col_map(names, col.update(h, Some(v))) == col_map(names, col).insert(names[h], v),
{
    let k = names[h];
    let c2 = col.update(h, Some(v));
    let m1 = col_map(names, c2);
    let m2 = col_map(names, col).insert(k, v);
    assert forall|q: Seq<u8>| m1.contains_key(q) <==> m2.contains_key(q) by {
        if q == k {
            assert(col_has(names, c2, q)) by {
                assert(names[h] == q && c2[h] is Some);
            }
        } else {
            if col_has(names, c2, q) {
                let i = choose|i: int| 0 <= i < names.len() && names[i] == q && c2[i] is Some;
                assert(i != h);
                assert(col[i] is Some);
                assert(col_has(names, col, q));
            }
            if col_has(names, col, q) {
                let i = choose|i: int| 0 <= i < names.len() && names[i] == q && col[i] is Some;
                assert(i != h);
                assert(c2[i] is Some);
                assert(col_has(names, c2, q));
            }
        }
    }
    assert forall|q: Seq<u8>| m1.contains_key(q) implies m1[q] == m2[q] by {
        if q == k {
            lemma_idx_of(names, q, h);
        } else {
            let i = idx_of(names, q);
            assert(col_has(names, c2, q));
            let w = choose|w: int| 0 <= w < names.len() && names[w] == q && c2[w] is Some;
            lemma_idx_of(names, q, w);
            assert(i == w && w != h);
            assert(c2[i] == col[i]);
        }
    }
    assert(m1 =~= m2);
}

/// Interning a fresh name with an empty slot leaves every column map as it
/// was; with a filled slot it inserts under the fresh name.
pub proof fn lemma_col_push<T>(names: Seq<Seq<u8>>, col: Seq<Option<T>>, k: Seq<u8>, o: Option<T>)
    requires
        distinct_names(names),
        col.len() == names.len(),
        forall|i: int| 0 <= i < names.len() ==> names[i] != k,
    ensures
        o is None ==> col_map(names.push(k), col.push(o)) == col_map(names, col),
        o is Some ==> col_map(names.push(k), col.push(o)) == col_map(names, col).insert(
            k,
            o->Some_0,
        ),
    decreases col.len(),
{
    let n2 = names.push(k);
    let c2 = col.push(o);
    let m1 = col_map(n2, c2);
    assert(distinct_names(n2)) by {
        assert forall|i: int, j: int| 0 <= i < j < n2.len() implies n2[i] != n2[j] by {
            if j < names.len() {
                assert(n2[i] == names[i] && n2[j] == names[j]);
            } else {
                assert(n2[j] == k && n2[i] == names[i]);
            }
        }
    }
    let m0 = col_map(names, col);
    let old_len = names.len() as int;
    assert forall|q: Seq<u8>| q != k implies (m1.contains_key(q) <==> m0.contains_key(q)) by {
        if col_has(n2, c2, q) {
            let i = choose|i: int| 0 <= i < n2.len() && n2[i] == q && c2[i] is Some;
            assert(i < old_len);
            assert(names[i] == q && col[i] is Some);
            assert(col_has(names, col, q));
        }
        if col_has(names, col, q) {
            let i = choose|i: int| 0 <= i < names.len() && names[i] == q && col[i] is Some;
            assert(n2[i] == q && c2[i] is Some);
            assert(col_has(n2, c2, q));
        }
    }
    assert forall|q: Seq<u8>| q != k && m1.contains_key(q) implies m1[q] == m0[q] by {
        let i = choose|i: int| 0 <= i < n2.len() && n2[i] == q && c2[i] is Some;
        assert(i < old_len);
        lemma_idx_of(n2, q, i);
        lemma_idx_of(names, q, i);
        assert(c2[i] == col[i]);
    }
    if o is None {
        assert(!m1.contains_key(k)) by {
            if col_has(n2, c2, k) {
                let i = choose|i: int| 0 <= i < n2.len() && n2[i] == k && c2[i] is Some;
                assert(i == old_len || names[i] == k);
            }
        }
        assert(!m0.contains_key(k)) by {
            lemma_col_absent(names, col, k);
        }
        assert(m1 =~= m0);
    } else {
        assert(m1.contains_key(k)) by {
            assert(n2[old_len] == k && c2[old_len] is Some);
        }
        assert(m1[k] == o->Some_0) by {
            lemma_idx_of(n2, k, old_len);
        }
        lemma_col_absent(names, col, k);
        assert(m1 =~= m0.insert(k, o->Some_0));
    }
}

/// A column of empty slots holds the empty map.
pub proof fn lemma_col_empty<T>(names: Seq<Seq<u8>>, col: Seq<Option<T>>)
    requires
        col.len() == names.len(),
        forall|i: int| 0 <= i < col.len() ==> col[i] is None,
    ensures
        col_map(names, col) == Map::<Seq<u8>, T>::empty(),
{
    let m = col_map(names, col);
    assert forall|q: Seq<u8>| !m.contains_key(q) by {
        if col_has(names, col, q) {
            let i = choose|i: int| 0 <= i < names.len() && names[i] == q && col[i] is Some;
        }
    }
    assert(m =~= Map::<Seq<u8>, T>::empty());
}

// ---------------------------------------------------------------------------
// The mathematical model of the cache
// ---------------------------------------------------------------------------
/// The mathematical content of the aggregation cache: per-name buckets for
/// each metric kind, the computed timer statistics, and the two monotonic
/// totals.
pub ghost struct CacheModel {
    pub counters: Map<Seq<u8>, int>,
    pub gauges: Map<Seq<u8>, int>,
    pub timers: Map<Seq<u8>, Seq<int>>,
    pub sets: Map<Seq<u8>, Set<int>>,
    pub timer_data: Map<Seq<u8>, StatsModel>,
    pub metrics_seen: nat,
    pub bad_metrics: nat,
}

/// The cache of a freshly started daemon.
pub open spec fn empty_model() -> CacheModel {
    CacheModel {
        counters: Map::empty(),
        gauges: Map::empty(),
        timers: Map::empty(),
        sets: Map::empty(),
        timer_data: Map::empty(),
        metrics_seen: 0,
        bad_metrics: 0,
    }
}

/// The sample rate in micro-units, with an absent rate meaning one.
pub open spec fn rate_of(sample_rate: Option<int>) -> int {
    match sample_rate {
        Some(r) => r,
        None => 1_000_000,
    }
}

/// The recorded contribution of a value under a sample rate:
/// `value * rate`, truncated toward zero.
pub open spec fn contribution(value: int, sample_rate: Option<int>) -> int {
    let r = rate_of(sample_rate);
    if value >= 0 {
        (value * r) / 1_000_000
    } else {
        -(((-value) * r) / 1_000_000)
    }
}

/// A value rounded to the nearest whole unit, halves away from zero.
pub open spec fn round_units(v: int) -> int {
    if v >= 0 {
        (v + 500_000) / 1_000_000
    } else {
        -((-v + 500_000) / 1_000_000)
    }
}

/// A count that saturates at the machine range instead of wrapping.
pub open spec fn sat_inc(x: nat) -> nat {
    if x >= u64::MAX {
        x
    } else {
        x + 1
    }
}

/// A counter's accumulated total, zero when the name is new.
pub open spec fn counter_of(m: Map<Seq<u8>, int>, k: Seq<u8>) -> int {
    if m.contains_key(k) {
        m[k]
    } else {
        0
    }
}

/// A timer's recorded samples, empty when the name is new.
pub open spec fn timer_of(m: Map<Seq<u8>, Seq<int>>, k: Seq<u8>) -> Seq<int> {
    if m.contains_key(k) {
        m[k]
    } else {
        Seq::empty()
    }
}

/// A set's recorded members, empty when the name is new.
pub open spec fn set_of(m: Map<Seq<u8>, Set<int>>, k: Seq<u8>) -> Set<int> {
    if m.contains_key(k) {
        m[k]
    } else {
        Set::empty()
    }
}

/// What recording one event does to the cache: the seen total grows and the
/// event's bucket is folded by its kind — counters accumulate, gauges are
/// overwritten, timers append, sets insert the rounded value.
pub open spec fn record_one(c: CacheModel, m: MetricModel) -> CacheModel {
    let seen = sat_inc(c.metrics_seen);
    match m.metric_type {
        MetricType::Counter => CacheModel {
            counters: c.counters.insert(
                m.name,
                sat_add_spec(
                    counter_of(c.counters, m.name),
                    contribution(m.value, m.sample_rate),
                ),
            ),
            metrics_seen: seen,
            ..c
        },
        MetricType::Gauge => CacheModel {
            gauges: c.gauges.insert(m.name, m.value),
            metrics_seen: seen,
            ..c
        },
        MetricType::Timer => CacheModel {
            timers: c.timers.insert(
                m.name,
                timer_of(c.timers, m.name).push(contribution(m.value, m.sample_rate)),
            ),
            metrics_seen: seen,
            ..c
        },
        MetricType::Unique => CacheModel {
            sets: c.sets.insert(m.name, set_of(c.sets, m.name).insert(round_units(m.value))),
            metrics_seen: seen,
            ..c
        },
    }
}

/// What recording one failed datagram does: both totals grow.
pub open spec fn record_bad_model(c: CacheModel) -> CacheModel {
    CacheModel { metrics_seen: sat_inc(c.metrics_seen), bad_metrics: sat_inc(c.bad_metrics), ..c }
}

/// What recording a sequence of events does, in order.
pub open spec fn record_seq(c: CacheModel, ms: Seq<MetricModel>) -> CacheModel
    decreases ms.len(),
{
    if ms.len() == 0 {
        c
    } else {
        record_one(record_seq(c, ms.drop_last()), ms.last())
    }
}

/// What a seen-count bump alone does.
pub open spec fn bump_seen(c: CacheModel) -> CacheModel {
    CacheModel { metrics_seen: sat_inc(c.metrics_seen), ..c }
}

/// What a window reset does: the per-window buckets are cleared; gauges keep
/// their current values and the totals are untouched.
pub open spec fn reset_model(c: CacheModel) -> CacheModel {
    CacheModel {
        counters: Map::empty(),
        timers: Map::empty(),
        sets: Map::empty(),
        timer_data: Map::empty(),
        ..c
    }
}

/// What computing timer statistics does: the statistics map is rebuilt with
/// one entry per timer name; nothing else moves.
pub open spec fn with_stats(c: CacheModel) -> CacheModel {
    CacheModel {
        timer_data: Map::new(
            |k: Seq<u8>| c.timers.contains_key(k),
            |k: Seq<u8>| stats_of(c.timers[k]),
        ),
        ..c
    }
}

// ---------------------------------------------------------------------------
// The executable cache
// ---------------------------------------------------------------------------
/// The column views: a slot of a plain column as a mathematical value.
pub open spec fn opt_int(o: Option<i64>) -> Option<int> {
    match o {
        Some(v) => Some(v as int),
        None => None,
    }
}

pub open spec fn int_col(col: Seq<Option<i64>>) -> Seq<Option<int>> {
    col.map_values(|o: Option<i64>| opt_int(o))
}

/// A sample column slot: an empty vector means no entry.
pub open spec fn seq_opt(v: Vec<i64>) -> Option<Seq<int>> {
    if v@.len() == 0 {
        None
    } else {
        Some(int_seq(v@))
    }
}

pub open spec fn seq_col(col: Seq<Vec<i64>>) -> Seq<Option<Seq<int>>> {
    col.map_values(|v: Vec<i64>| seq_opt(v))
}

/// A set column slot: the distinct members as a set.
pub open spec fn set_opt(v: Vec<i64>) -> Option<Set<int>> {
    if v@.len() == 0 {
        None
    } else {
        Some(int_seq(v@).to_set())
    }
}

pub open spec fn set_col(col: Seq<Vec<i64>>) -> Seq<Option<Set<int>>> {
    col.map_values(|v: Vec<i64>| set_opt(v))
}

pub open spec fn stats_opt(o: Option<TimerData>) -> Option<StatsModel> {
    match o {
        Some(t) => Some(t@),
        None => None,
    }
}

pub open spec fn stats_col(col: Seq<Option<TimerData>>) -> Seq<Option<StatsModel>> {
    col.map_values(|o: Option<TimerData>| stats_opt(o))
}

/// `CapellaCache` is the bucketing mechanism used to buffer metrics before
/// they are sent to the backend. Bucket names are interned once; every
/// bucket collection is a column indexed by the name's handle.
#[derive(Debug)]
pub struct CapellaCache {
    names: Vec<Vec<u8>>,
    counters: Vec<Option<i64>>,
    gauges: Vec<Option<i64>>,
    timers: Vec<Vec<i64>>,
    sets: Vec<Vec<i64>>,
    timer_data: Vec<Option<TimerData>>,
    metrics_seen: u64,
    bad_metrics: u64,
}

impl View for CapellaCache {
    type V = CacheModel;

    closed spec fn view(&self) -> CacheModel {
        CacheModel {
            counters: col_map(self.names_seq(), int_col(self.counters@)),
            gauges: col_map(self.names_seq(), int_col(self.gauges@)),
            timers: col_map(self.names_seq(), seq_col(self.timers@)),
            sets: col_map(self.names_seq(), set_col(self.sets@)),
            timer_data: col_map(self.names_seq(), stats_col(self.timer_data@)),
            metrics_seen: self.metrics_seen as nat,
            bad_metrics: self.bad_metrics as nat,
        }
    }
}

impl CapellaCache {
    /// The interned names.
    pub closed spec fn names_seq(&self) -> Seq<Seq<u8>> {
        self.names@.map_values(|v: Vec<u8>| v@)
    }

    /// The cache's internal invariant: the columns are as long as the name
    /// table, names are interned once, timer samples stay within the value
    /// range, and set members are distinct.
    pub closed spec fn wf(&self) -> bool {
        &&& self.counters@.len() == self.names@.len()
        &&& self.gauges@.len() == self.names@.len()
        &&& self.timers@.len() == self.names@.len()
        &&& self.sets@.len() == self.names@.len()
        &&& self.timer_data@.len() == self.names@.len()
        &&& distinct_names(self.names_seq())
        &&& forall|h: int, e: int|
            0 <= h < self.timers@.len() && 0 <= e < self.timers@[h]@.len() ==> -MAX_UNITS
                <= #[trigger] self.timers@[h]@[e] <= MAX_UNITS
        &&& forall|h: int| 0 <= h < self.sets@.len() ==> (#[trigger] self.sets@[h]@).no_duplicates()
    }

    /// A cache with nothing recorded.
    pub fn new() -> (c: CapellaCache)
        ensures
            c.wf(),
            c@ == empty_model(),
    {
        let c = CapellaCache {
            names: Vec::new(),
            counters: Vec::new(),
            gauges: Vec::new(),
            timers: Vec::new(),
            sets: Vec::new(),
            timer_data: Vec::new(),
            metrics_seen: 0,
            bad_metrics: 0,
        };
        proof {
            lemma_col_empty(c.names_seq(), int_col(c.counters@));
            lemma_col_empty(c.names_seq(), int_col(c.gauges@));
            lemma_col_empty(c.names_seq(), seq_col(c.timers@));
            lemma_col_empty(c.names_seq(), set_col(c.sets@));
            lemma_col_empty(c.names_seq(), stats_col(c.timer_data@));
        }
        c
    }

    /// The handle of an already interned name.
    fn find_handle(&self, name: &[u8]) -> (r: Option<usize>)
        requires
            self.wf(),
        ensures
            match r {
                Some(h) => h < self.names_seq().len() && self.names_seq()[h as int] == name@,
                None => forall|i: int|
                    0 <= i < self.names_seq().len() ==> self.names_seq()[i] != name@,
            },
    {
        let n = self.names.len();
        let mut i: usize = 0;
        while i < n
            invariant
                0 <= i <= n,
                n == self.names@.len(),
                forall|j: int| 0 <= j < i ==> self.names_seq()[j] != name@,
            decreases n - i,
        {
            if vec_eq_slice(&self.names[i], name) {
                return Some(i);
            }
            proof {
                assert(self.names_seq()[i as int] == self.names@[i as int]@);
            }
            i += 1;
        }
        None
    }

    /// The handle of a name, interning it with empty slots when it is new.
    fn ensure_handle(&mut self, name: &Vec<u8>) -> (h: usize)
        requires
            old(self).wf(),
        ensures
            final(self).wf(),
            final(self)@ == old(self)@,
            h < final(self).names_seq().len(),
            final(self).names_seq()[h as int] == name@,
    {
        match self.find_handle(name.as_slice()) {
            Some(h) => h,
            None => {
                let ghost names0 = self.names_seq();
                let h = self.names.len();
                self.names.push(slice_to_vec(name.as_slice()));
                self.counters.push(None);
                self.gauges.push(None);
                self.timers.push(Vec::new());
                self.sets.push(Vec::new());
                self.timer_data.push(None);
                proof {
                    assert(self.names_seq() =~= names0.push(name@));
                    assert(int_col(self.counters@) =~= int_col(old(self).counters@).push(
                        None::<int>,
                    ));
                    assert(int_col(self.gauges@) =~= int_col(old(self).gauges@).push(None::<int>));
                    assert(seq_col(self.timers@) =~= seq_col(old(self).timers@).push(
                        None::<Seq<int>>,
                    ));
                    assert(set_col(self.sets@) =~= set_col(old(self).sets@).push(
                        None::<Set<int>>,
                    ));
                    assert(stats_col(self.timer_data@) =~= stats_col(old(self).timer_data@).push(
                        None::<StatsModel>,
                    ));
                    lemma_col_push(names0, int_col(old(self).counters@), name@, None::<int>);
                    lemma_col_push(names0, int_col(old(self).gauges@), name@, None::<int>);
                    lemma_col_push(names0, seq_col(old(self).timers@), name@, None::<Seq<int>>);
                    lemma_col_push(names0, set_col(old(self).sets@), name@, None::<Set<int>>);
                    lemma_col_push(
                        names0,
                        stats_col(old(self).timer_data@),
                        name@,
                        None::<StatsModel>,
                    );
                    assert(distinct_names(self.names_seq())) by {
                        assert forall|i: int, j: int|
                            0 <= i < j < self.names_seq().len() implies self.names_seq()[i]
                            != self.names_seq()[j] by {
                            if j < names0.len() {
                                assert(self.names_seq()[i] == names0[i] && self.names_seq()[j]
                                    == names0[j]);
                            } else {
                                assert(self.names_seq()[j] == name@ && self.names_seq()[i]
                                    == names0[i]);
                            }
                        }
                    }
                }
                h
            },
        }
    }
}

/// Whether a byte vector and a byte slice hold the same bytes.
fn vec_eq_slice(a: &Vec<u8>, b: &[u8]) -> (r: bool)
    ensures
        r <==> a@ == b@,
{
    let n = a.len();
    if n != b.len() {
        return false;
    }
    let mut i: usize = 0;
    while i < n
        invariant
            0 <= i <= n,
            n == a@.len(),
            n == b@.len(),
            forall|j: int| 0 <= j < i ==> a@[j] == b@[j],
        decreases n - i,
    {
        if a[i] != b[i] {
            return false;
        }
        i += 1;
    }
    proof {
        assert(a@ =~= b@);
    }
    true
}

/// The recorded contribution of a bounded value under a sample rate in
/// (0, 1], in micro-units: `value * rate`, truncated toward zero.
pub fn mul_rate(value: i64, sample_rate: Option<i64>) -> (r: i64)
    requires
        i64::MIN < value,
        match sample_rate {
            Some(rt) => 1 <= rt <= SCALE,
            None => true,
        },
    ensures
        r as int == contribution(
            value as int,
            match sample_rate {
                Some(rt) => Some(rt as int),
                None => None,
            },
        ),
        value >= 0 ==> 0 <= r <= value,
        value < 0 ==> value <= r <= 0,
{
    let rt: u64 = match sample_rate {
        Some(x) => x as u64,
        None => SCALE,
    };
    let mag: u64 = if value >= 0 {
        value as u64
    } else {
        (-value) as u64
    };
    proof {
        assert((mag as u128) * (rt as u128) <= (mag as u128) * 1_000_000) by (nonlinear_arith)
            requires
                rt as u128 <= 1_000_000,
        ;
    }
    let prod: u128 = (mag as u128) * (rt as u128);
    let q: u128 = prod / 1_000_000;
    proof {
        crate::stats::lemma_div_bound(prod as int, 1_000_000, mag as int);
    }
    if value >= 0 {
        q as i64
    } else {
        -(q as i64)
    }
}

/// A bounded value rounded to the nearest whole unit, halves away from zero.
pub fn round_to_unit(value: i64) -> (r: i64)
    requires
        -MAX_UNITS <= value <= MAX_UNITS,
    ensures
        r as int == round_units(value as int),
        -MAX_UNITS <= r <= MAX_UNITS,
{
    if value >= 0 {
        let q: u64 = ((value as u64) + 500_000) / 1_000_000;
        assert(q <= (value as u64) + 500_000);
        q as i64
    } else {
        let q: u64 = (((-value) as u64) + 500_000) / 1_000_000;
        assert(q <= ((-value) as u64) + 500_000);
        -(q as i64)
    }
}

impl CapellaCache {
    /// Increase the unique metric count; it saturates rather than wraps.
    pub fn metric_count_increase(&mut self)
        requires
            old(self).wf(),
        ensures
            final(self).wf(),
            final(self)@ == bump_seen(old(self)@),
    {
        if self.metrics_seen < u64::MAX {
            self.metrics_seen = self.metrics_seen + 1;
        }
    }

    /// Increase the count of bad messages that could not be parsed; a failed
    /// datagram still counts as an attempt.
    pub fn bad_metric_count_increase(&mut self)
        requires
            old(self).wf(),
        ensures
            final(self).wf(),
            final(self)@ == record_bad_model(old(self)@),
    {
        if self.bad_metrics < u64::MAX {
            self.bad_metrics = self.bad_metrics + 1;
        }
        self.metric_count_increase();
    }

    /// The total number of metric events seen since the cache was created.
    pub fn total_metrics(&self) -> (r: u64)
        ensures
            r as nat == self@.metrics_seen,
    {
        self.metrics_seen
    }

    /// The total number of failed metrics seen since the cache was created.
    pub fn total_bad_metrics(&self) -> (r: u64)
        ensures
            r as nat == self@.bad_metrics,
    {
        self.bad_metrics
    }

    /// This function folds a `Metric` into the cache, as `record_one` says.
    pub fn add_metric(&mut self, metric: &Metric)
        requires
            old(self).wf(),
            metric@.wf(),
        ensures
            final(self).wf(),
            final(self)@ == record_one(old(self)@, metric@),
    {
        let ghost c0 = self@;
        self.metric_count_increase();
        let h = self.ensure_handle(&metric.name);
        let ghost names = self.names_seq();
        let ghost k = metric@.name;
        match metric.metric_type {
            MetricType::Counter => {
                let cur: Option<i64> = self.counters[h];
                let base: i64 = match cur {
                    Some(v) => v,
                    None => 0,
                };
                proof {
                    lemma_col_get(names, int_col(self.counters@), h as int);
                    assert(int_col(self.counters@)[h as int] == opt_int(cur));
                    assert(base as int == counter_of(c0.counters, k));
                }
                let delta = mul_rate(metric.value, metric.sample_rate);
                let nv = sat_add_i64(base, delta);
                let ghost col0 = int_col(self.counters@);
                self.counters.set(h, Some(nv));
                proof {
                    assert(int_col(self.counters@) =~= col0.update(h as int, Some(nv as int)));
                    lemma_col_update(names, col0, h as int, nv as int);
                    assert(self@.counters == c0.counters.insert(
                        k,
                        sat_add_spec(
                            counter_of(c0.counters, k),
                            contribution(metric@.value, metric@.sample_rate),
                        ),
                    ));
                    assert(self@ == record_one(c0, metric@));
                }
            },
            MetricType::Gauge => {
                let ghost col0 = int_col(self.gauges@);
                self.gauges.set(h, Some(metric.value));
                proof {
                    assert(int_col(self.gauges@) =~= col0.update(
                        h as int,
                        Some(metric.value as int),
                    ));
                    lemma_col_update(names, col0, h as int, metric.value as int);
                    assert(self@ == record_one(c0, metric@));
                }
            },
            MetricType::Timer => {
                let delta = mul_rate(metric.value, metric.sample_rate);
                let ghost col0 = seq_col(self.timers@);
                let ghost tpre = self.timers@;
                let ghost v0 = self.timers@[h as int]@;
                self.timers[h].push(delta);
                proof {
                    assert(self.timers@[h as int]@ =~= v0.push(delta));
                    assert(int_seq(v0.push(delta)) =~= int_seq(v0).push(delta as int));
                    lemma_col_get(names, col0, h as int);
                    assert(seq_col(self.timers@) =~= col0.update(
                        h as int,
                        Some(timer_of(c0.timers, k).push(delta as int)),
                    )) by {
                        assert(col0[h as int] == seq_opt(tpre[h as int]));
                        if v0.len() == 0 {
                            assert(timer_of(c0.timers, k) =~= int_seq(v0));
                        } else {
                            assert(timer_of(c0.timers, k) == int_seq(v0));
                        }
                        assert forall|j: int|
                            0 <= j < seq_col(self.timers@).len() implies seq_col(self.timers@)[j]
                            == col0.update(
                            h as int,
                            Some(timer_of(c0.timers, k).push(delta as int)),
                        )[j] by {
                            if j != h as int {
                                assert(self.timers@[j] == tpre[j]);
                            }
                        }
                    }
                    lemma_col_update(names, col0, h as int, timer_of(c0.timers, k).push(
                        delta as int,
                    ));
                    assert(self@ == record_one(c0, metric@));
                }
            },
            MetricType::Unique => {
                let rounded = round_to_unit(metric.value);
                let found = vec_contains(&self.sets[h], rounded);
                let ghost col0 = set_col(self.sets@);
                let ghost spre = self.sets@;
                let ghost v0 = self.sets@[h as int]@;
                proof {
                    lemma_col_get(names, col0, h as int);
                    assert(col0[h as int] == set_opt(self.sets@[h as int]));
                    broadcast use vstd::seq_lib::group_seq_properties;

                    if v0.len() == 0 {
                        assert(set_of(c0.sets, k) =~= int_seq(v0).to_set());
                    } else {
                        assert(set_of(c0.sets, k) == int_seq(v0).to_set());
                    }
                    assert(found <==> int_seq(v0).to_set().contains(rounded as int)) by {
                        if found {
                            let w = choose|w: int| 0 <= w < v0.len() && v0[w] == rounded;
                            assert(int_seq(v0)[w] == rounded as int);
                            assert(int_seq(v0).contains(rounded as int));
                        }
                        if int_seq(v0).to_set().contains(rounded as int) {
                            let w = choose|w: int|
                                0 <= w < int_seq(v0).len() && int_seq(v0)[w] == rounded as int;
                            assert(v0[w] == rounded);
                        }
                    }
                }
                if !found {
                    self.sets[h].push(rounded);
                    proof {
                        assert(self.sets@[h as int]@ =~= v0.push(rounded));
                        assert(int_seq(v0.push(rounded)) =~= int_seq(v0).push(rounded as int));
                        assert(int_seq(v0).push(rounded as int).to_set() =~= int_seq(
                            v0,
                        ).to_set().insert(rounded as int));
                        assert(set_col(self.sets@) =~= col0.update(
                            h as int,
                            Some(set_of(c0.sets, k).insert(round_units(metric@.value))),
                        )) by {
                            assert forall|j: int|
                                0 <= j < set_col(self.sets@).len() implies set_col(self.sets@)[j]
                                == col0.update(
                                h as int,
                                Some(set_of(c0.sets, k).insert(round_units(metric@.value))),
                            )[j] by {
                                if j != h as int {
                                    assert(self.sets@[j] == spre[j]);
                                }
                            }
                        }
                        lemma_col_update(names, col0, h as int, set_of(c0.sets, k).insert(
                            round_units(metric@.value),
                        ));
                        assert(self.sets@[h as int]@.no_duplicates()) by {
                            assert forall|a: int, b: int|
                                0 <= a < self.sets@[h as int]@.len() && 0 <= b < self.sets@[
                                h as int]@.len() && a != b implies self.sets@[h as int]@[a]
                                != self.sets@[h as int]@[b] by {
                                if a < v0.len() && b < v0.len() {
                                    assert(v0.no_duplicates());
                                } else if a < v0.len() {
                                    assert(!int_seq(v0).to_set().contains(rounded as int));
                                    if v0[a] == rounded {
                                        assert(int_seq(v0)[a] == rounded as int);
                                        assert(int_seq(v0).contains(rounded as int));
                                    }
                                } else if b < v0.len() {
                                    if v0[b] == rounded {
                                        assert(int_seq(v0)[b] == rounded as int);
                                        assert(int_seq(v0).contains(rounded as int));
                                    }
                                }
                            }
                        }
                        assert(self@ == record_one(c0, metric@));
                    }
                } else {
                    proof {
                        let s = set_of(c0.sets, k);
                        assert(s.insert(round_units(metric@.value)) =~= s);
                        assert(c0.sets.contains_key(k)) by {
                            assert(v0.len() > 0);
                        }
                        assert(c0.sets.insert(k, s) =~= c0.sets);
                        assert(self@ == record_one(c0, metric@));
                    }
                }
            },
        }
    }
}

impl CapellaCache {
    /// Clear the per-window buckets: counters, timers, sets and the computed
    /// timer statistics. Gauges keep their current values, and the two
    /// monotonic totals are untouched.
    pub fn reset(&mut self)
        requires
            old(self).wf(),
        ensures
            final(self).wf(),
            final(self)@ == reset_model(old(self)@),
    {
        let n = self.names.len();
        let mut h: usize = 0;
        while h < n
            invariant
                0 <= h <= n,
                n == self.names@.len(),
                old(self).wf(),
                self.names@ == old(self).names@,
                self.gauges@ == old(self).gauges@,
                self.metrics_seen == old(self).metrics_seen,
                self.bad_metrics == old(self).bad_metrics,
                self.counters@.len() == n,
                self.timers@.len() == n,
                self.sets@.len() == n,
                self.timer_data@.len() == n,
                forall|j: int| 0 <= j < h ==> (#[trigger] self.counters@[j]) is None,
                forall|j: int| 0 <= j < h ==> (#[trigger] self.timers@[j])@.len() == 0,
                forall|j: int| 0 <= j < h ==> (#[trigger] self.sets@[j])@.len() == 0,
                forall|j: int| 0 <= j < h ==> (#[trigger] self.timer_data@[j]) is None,
            decreases n - h,
        {
            self.counters.set(h, None);
            self.timers.set(h, Vec::new());
            self.sets.set(h, Vec::new());
            self.timer_data.set(h, None);
            h += 1;
        }
        proof {
            assert(self.names_seq() == old(self).names_seq());
            assert forall|j: int|
                0 <= j < int_col(self.counters@).len() implies (#[trigger] int_col(
                self.counters@,
            )[j]) is None by {
                assert(self.counters@[j] is None);
            }
            assert forall|j: int|
                0 <= j < seq_col(self.timers@).len() implies (#[trigger] seq_col(
                self.timers@,
            )[j]) is None by {
                assert(self.timers@[j]@.len() == 0);
            }
            assert forall|j: int|
                0 <= j < set_col(self.sets@).len() implies (#[trigger] set_col(
                self.sets@,
            )[j]) is None by {
                assert(self.sets@[j]@.len() == 0);
            }
            assert forall|j: int|
                0 <= j < stats_col(self.timer_data@).len() implies (#[trigger] stats_col(
                self.timer_data@,
            )[j]) is None by {
                assert(self.timer_data@[j] is None);
            }
            lemma_col_empty(self.names_seq(), int_col(self.counters@));
            lemma_col_empty(self.names_seq(), seq_col(self.timers@));
            lemma_col_empty(self.names_seq(), set_col(self.sets@));
            lemma_col_empty(self.names_seq(), stats_col(self.timer_data@));
            assert(self@.counters =~= reset_model(old(self)@).counters);
            assert(self@.timers =~= reset_model(old(self)@).timers);
            assert(self@.sets =~= reset_model(old(self)@).sets);
            assert(self@.timer_data =~= reset_model(old(self)@).timer_data);
            assert(self@ == reset_model(old(self)@));
        }
    }

    /// The statistics column that computing timer statistics would fill:
    /// one entry per non-empty timer bucket.
    pub closed spec fn stats_after(&self) -> Seq<Option<StatsModel>> {
        self.timers@.map_values(
            |v: Vec<i64>|
                match seq_opt(v) {
                    Some(s) => Some(stats_of(s)),
                    None => None::<StatsModel>,
                },
        )
    }

    /// Compute the summary statistics of every timer bucket and rebuild the
    /// statistics map from them; the timer samples themselves are untouched.
    pub fn make_timer_stats(&mut self)
        requires
            old(self).wf(),
        ensures
            final(self).wf(),
            final(self)@ == with_stats(old(self)@),
            final(self).names_seq() == old(self).names_seq(),
            final(self).counters_col() == old(self).counters_col(),
            final(self).gauges_col() == old(self).gauges_col(),
            final(self).sets_col() == old(self).sets_col(),
            stats_col(final(self).stats_col_view()) == old(self).stats_after(),
    {
        let n = self.names.len();
        let mut h: usize = 0;
        while h < n
            invariant
                0 <= h <= n,
                n == self.names@.len(),
                old(self).wf(),
                self.names@ == old(self).names@,
                self.gauges@ == old(self).gauges@,
                self.counters@ == old(self).counters@,
                self.timers@ == old(self).timers@,
                self.sets@ == old(self).sets@,
                self.metrics_seen == old(self).metrics_seen,
                self.bad_metrics == old(self).bad_metrics,
                self.timer_data@.len() == n,
                forall|j: int|
                    0 <= j < h ==> #[trigger] stats_col(self.timer_data@)[j] == match seq_col(
                        self.timers@,
                    )[j] {
                        Some(s) => Some(stats_of(s)),
                        None => None::<StatsModel>,
                    },
            decreases n - h,
        {
            let tlen = self.timers[h].len();
            let ghost td_pre = self.timer_data@;
            if tlen > 0 {
                let st = make_stats(&self.timers[h]);
                self.timer_data.set(h, Some(st));
                proof {
                    assert(seq_col(self.timers@)[h as int] == seq_opt(self.timers@[h as int]));
                    assert(stats_col(self.timer_data@)[h as int] == Some(st@));
                }
            } else {
                self.timer_data.set(h, None);
                proof {
                    assert(seq_col(self.timers@)[h as int] == seq_opt(self.timers@[h as int]));
                    assert(stats_col(self.timer_data@)[h as int] is None);
                }
            }
            proof {
                assert forall|j: int|
                    0 <= j < h as int implies #[trigger] stats_col(self.timer_data@)[j]
                    == stats_col(td_pre)[j] by {
                    assert(self.timer_data@[j] == td_pre[j]);
                }
            }
            h += 1;
        }
        proof {
            let names = self.names_seq();
            let tcol = seq_col(self.timers@);
            let scol = stats_col(self.timer_data@);
            let m1 = col_map(names, scol);
            let m2 = with_stats(old(self)@).timer_data;
            let tmap = col_map(names, tcol);
            assert forall|q: Seq<u8>| m1.contains_key(q) <==> tmap.contains_key(q) by {
                if col_has(names, scol, q) {
                    let i = choose|i: int|
                        0 <= i < names.len() && names[i] == q && scol[i] is Some;
                    assert(tcol[i] is Some);
                    assert(col_has(names, tcol, q));
                }
                if col_has(names, tcol, q) {
                    let i = choose|i: int|
                        0 <= i < names.len() && names[i] == q && tcol[i] is Some;
                    assert(scol[i] is Some);
                    assert(col_has(names, scol, q));
                }
            }
            assert forall|q: Seq<u8>| m1.contains_key(q) implies m1[q] == stats_of(tmap[q]) by {
                let i = choose|i: int| 0 <= i < names.len() && names[i] == q && scol[i] is Some;
                lemma_idx_of(names, q, i);
                assert(m1[q] == scol[i]->Some_0);
                assert(tmap[q] == tcol[i]->Some_0);
            }
            assert(m1 =~= m2);
            assert(self@.counters == old(self)@.counters);
            assert(self@.gauges == old(self)@.gauges);
            assert(self@.timers == old(self)@.timers);
            assert(self@.sets == old(self)@.sets);
            assert(self@ == with_stats(old(self)@));
            assert(stats_col(self.timer_data@) =~= old(self).stats_after());
        }
    }
}

/// The summary statistics of one non-empty, bounded sample vector.
fn make_stats(values: &Vec<i64>) -> (t: TimerData)
    requires
        values@.len() >= 1,
        forall|i: int|
            0 <= i < values@.len() ==> -MAX_UNITS <= #[trigger] values@[i] <= MAX_UNITS,
    ensures
        t@ == stats_of(int_seq(values@)),
{
    let n = values.len();
    let mut sorted = slice_to_vec(values.as_slice());
    crate::stats::sort_i64(&mut sorted);
    proof {
        assert forall|i: int|
            0 <= i < int_seq(values@).len() implies -(MAX_UNITS as int) <= #[trigger] int_seq(
            values@,
        )[i] <= MAX_UNITS as int by {
            assert(int_seq(values@)[i] == values@[i] as int);
        }
        crate::stats::lemma_sort_elems_bounded(int_seq(values@), MAX_UNITS as int);
        assert forall|i: int|
            0 <= i < sorted@.len() implies -MAX_UNITS <= #[trigger] sorted@[i] <= MAX_UNITS by {
            assert(int_seq(sorted@)[i] == sorted@[i] as int);
            assert(int_seq(sorted@)[i] == int_seq(values@).sort()[i]);
        }
    }
    let ghost s = int_seq(values@).sort();
    let mn = sorted[0];
    let mx = sorted[n - 1];
    // the sample count as micro-units, saturating at the machine range
    let cu: u128 = (n as u128) * 1_000_000;
    let count_stat: i64 = if cu > (i64::MAX as u128) {
        i64::MAX
    } else {
        cu as i64
    };
    // the exact sum of the sorted samples
    let mut sum: i128 = 0;
    let mut i: usize = 0;
    while i < n
        invariant
            0 <= i <= n,
            n == sorted@.len(),
            forall|j: int| 0 <= j < n ==> -MAX_UNITS <= #[trigger] sorted@[j] <= MAX_UNITS,
            sum as int == crate::stats::seq_sum(int_seq(sorted@).subrange(0, i as int)),
            -(i as int * (MAX_UNITS as int)) <= sum as int <= i as int * (MAX_UNITS as int),
        decreases n - i,
    {
        proof {
            let pre = int_seq(sorted@).subrange(0, i as int);
            let cur = int_seq(sorted@).subrange(0, i as int + 1);
            assert(cur.drop_last() =~= pre);
            assert(cur.last() == sorted@[i as int] as int);
        }
        sum = sum + (sorted[i] as i128);
        i += 1;
    }
    proof {
        assert(int_seq(sorted@).subrange(0, n as int) =~= int_seq(sorted@));
        assert(n as int * (MAX_UNITS as int) <= 0xffff_ffff_ffff_ffffu64 * (MAX_UNITS as int));
    }
    // the average, truncated toward zero
    let avg: i64 = if sum >= 0 {
        let q: u128 = (sum as u128) / (n as u128);
        proof {
            crate::stats::lemma_div_bound(sum as int, n as int, MAX_UNITS as int);
        }
        q as i64
    } else {
        let q: u128 = ((-sum) as u128) / (n as u128);
        proof {
            crate::stats::lemma_div_bound(-(sum as int), n as int, MAX_UNITS as int);
        }
        -(q as i64)
    };
    proof {
        assert(avg as int == crate::num::div_trunc(crate::stats::seq_sum(s), n as int));
    }
    let sd = crate::stats::get_std_dev(&sorted, avg, n);
    let med = crate::stats::get_percentile(&sorted, 50);
    let up = crate::stats::get_percentile(&sorted, 95);
    let t = TimerData {
        min: mn,
        max: mx,
        count: count_stat,
        average: avg,
        std_dev: sd,
        median: med,
        upper_95: up,
    };
    proof {
        assert(s[0] == sorted@[0] as int);
        assert(s[n - 1] == sorted@[n - 1] as int);
        assert(t@ == stats_of(int_seq(values@)));
    }
    t
}

/// Whether a vector holds the given value.
fn vec_contains(v: &Vec<i64>, x: i64) -> (r: bool)
    ensures
        r <==> v@.contains(x),
{
    let n = v.len();
    let mut i: usize = 0;
    while i < n
        invariant
            0 <= i <= n,
            n == v@.len(),
            forall|j: int| 0 <= j < i ==> v@[j] != x,
        decreases n - i,
    {
        if v[i] == x {
            return true;
        }
        i += 1;
    }
    false
}

impl Default for CapellaCache {
    /// A cache with nothing recorded.
    fn default() -> (c: CapellaCache)
        ensures
            c.wf(),
            c@ == empty_model(),
    {
        CapellaCache::new()
    }
}

// ---------------------------------------------------------------------------
// The laws of the cache
// ---------------------------------------------------------------------------
/// A well-formed counter event never takes a bucket backward.
pub proof fn lemma_contribution_nonneg(value: int, sample_rate: Option<int>)
    requires
        value >= 0,
        match sample_rate {
            Some(r) => r >= 1,
            None => true,
        },
    ensures
        contribution(value, sample_rate) >= 0,
{
    let r = rate_of(sample_rate);
    assert(value * r >= 0) by (nonlinear_arith)
        requires
            value >= 0,
            r >= 1,
    ;
    assert((value * r) / 1_000_000 >= 0) by {
        vstd::arithmetic::div_mod::lemma_div_pos_is_pos(value * r, 1_000_000);
    }
}

/// Counters accumulate: recording two counter events with one name within
/// the machine range adds both contributions to the bucket's total.
pub proof fn lemma_counters_accumulate(c: CacheModel, m1: MetricModel, m2: MetricModel)
    requires
        m1.wf(),
        m2.wf(),
        m1.metric_type == MetricType::Counter,
        m2.metric_type == MetricType::Counter,
        m2.name == m1.name,
        0 <= counter_of(c.counters, m1.name),
        counter_of(c.counters, m1.name) + contribution(m1.value, m1.sample_rate) + contribution(
            m2.value,
            m2.sample_rate,
        ) <= i64::MAX,
    ensures
        counter_of(record_one(record_one(c, m1), m2).counters, m1.name) == counter_of(
            c.counters,
            m1.name,
        ) + contribution(m1.value, m1.sample_rate) + contribution(m2.value, m2.sample_rate),
{
    lemma_contribution_nonneg(m1.value, m1.sample_rate);
    lemma_contribution_nonneg(m2.value, m2.sample_rate);
}

/// Gauges are last-write-wins, and a window reset leaves them standing.
pub proof fn lemma_gauge_last_write(c: CacheModel, m1: MetricModel, m2: MetricModel)
    requires
        m1.metric_type == MetricType::Gauge,
        m2.metric_type == MetricType::Gauge,
        m2.name == m1.name,
    ensures
        record_one(record_one(c, m1), m2).gauges[m1.name] == m2.value,
        reset_model(record_one(record_one(c, m1), m2)).gauges == record_one(
            record_one(c, m1),
            m2,
        ).gauges,
{
}

/// The round trip of one well-formed line: parsing it and recording the
/// event leaves the parsed value readable from the bucket its kind selects —
/// exactly for counters, gauges and sets, and for timers as the appended
/// sample together with the statistics the next computation yields from it.
pub proof fn lemma_parse_record_round_trip(c: CacheModel, p: Seq<u8>, m: MetricModel)
    requires
        crate::parse::parse_spec(p) == Some(m),
        m.wf(),
        m.metric_type == MetricType::Counter ==> 0 <= counter_of(c.counters, m.name) && counter_of(
            c.counters,
            m.name,
        ) + contribution(m.value, m.sample_rate) <= i64::MAX,
    ensures
        record_one(c, m).metrics_seen == sat_inc(c.metrics_seen),
        record_one(c, m).bad_metrics == c.bad_metrics,
        m.metric_type == MetricType::Counter ==> counter_of(record_one(c, m).counters, m.name)
            == counter_of(c.counters, m.name) + contribution(m.value, m.sample_rate),
        m.metric_type == MetricType::Gauge ==> record_one(c, m).gauges[m.name] == m.value,
        m.metric_type == MetricType::Timer ==> record_one(c, m).timers[m.name] == timer_of(
            c.timers,
            m.name,
        ).push(contribution(m.value, m.sample_rate)) && with_stats(record_one(c, m)).timer_data[
            m.name] == stats_of(record_one(c, m).timers[m.name]),
        m.metric_type == MetricType::Unique ==> record_one(c, m).sets[m.name].contains(
            round_units(m.value),
        ),
{
    if m.metric_type == MetricType::Counter {
        lemma_contribution_nonneg(m.value, m.sample_rate);
    }
}

// ---------------------------------------------------------------------------
// Read accessors for the backend
// ---------------------------------------------------------------------------
/// The entries of one column in handle order: each filled slot as a pair of
/// its name and its value.
pub open spec fn entries<T>(names: Seq<Seq<u8>>, col: Seq<Option<T>>, n: int) -> Seq<(Seq<u8>, T)>
    decreases n,
{
    if n <= 0 {
        Seq::empty()
    } else {
        let rest = entries(names, col, n - 1);
        match col[n - 1] {
            Some(v) => rest.push((names[n - 1], v)),
            None => rest,
        }
    }
}

/// The mathematical pairs a vector of name/value pairs holds.
pub open spec fn pairs_int(s: Seq<(Vec<u8>, i64)>) -> Seq<(Seq<u8>, int)> {
    s.map_values(|p: (Vec<u8>, i64)| (p.0@, p.1 as int))
}

/// The mathematical pairs a vector of name/samples pairs holds.
pub open spec fn pairs_seq(s: Seq<(Vec<u8>, Vec<i64>)>) -> Seq<(Seq<u8>, Seq<int>)> {
    s.map_values(|p: (Vec<u8>, Vec<i64>)| (p.0@, int_seq(p.1@)))
}

impl CapellaCache {
    /// The counters of the current window, one pair per name, in handle
    /// order. Each pair's value is the accumulated total of `self@.counters`
    /// under the pair's name.
    pub fn counters_iter(&self) -> (r: Vec<(Vec<u8>, i64)>)
        requires
            self.wf(),
        ensures
            pairs_int(r@) == entries(
                self.names_seq(),
                int_col(self.counters_col()),
                self.names_seq().len() as int,
            ),
    {
        iter_int_col(&self.names, &self.counters)
    }

    /// The gauges, one pair per name, in handle order.
    pub fn gauges_iter(&self) -> (r: Vec<(Vec<u8>, i64)>)
        requires
            self.wf(),
        ensures
            pairs_int(r@) == entries(
                self.names_seq(),
                int_col(self.gauges_col()),
                self.names_seq().len() as int,
            ),
    {
        iter_int_col(&self.names, &self.gauges)
    }

    /// The sets of the current window: each name with its distinct members.
    pub fn sets_iter(&self) -> (r: Vec<(Vec<u8>, Vec<i64>)>)
        requires
            self.wf(),
        ensures
            pairs_seq(r@) == entries(
                self.names_seq(),
                seq_col(self.sets_col()),
                self.names_seq().len() as int,
            ),
            forall|i: int| 0 <= i < r@.len() ==> (#[trigger] r@[i].1)@.no_duplicates(),
    {
        let n = self.names.len();
        let mut r: Vec<(Vec<u8>, Vec<i64>)> = Vec::new();
        let mut h: usize = 0;
        while h < n
            invariant
                0 <= h <= n,
                self.wf(),
                n == self.names@.len(),
                pairs_seq(r@) == entries(self.names_seq(), seq_col(self.sets@), h as int),
                forall|i: int| 0 <= i < r@.len() ==> (#[trigger] r@[i].1)@.no_duplicates(),
            decreases n - h,
        {
            let ghost r0 = r@;
            if self.sets[h].len() > 0 {
                let name = slice_to_vec(self.names[h].as_slice());
                let members = slice_to_vec(self.sets[h].as_slice());
                r.push((name, members));
                proof {
                    assert(pairs_seq(r@) =~= pairs_seq(r0).push(
                        (self.names_seq()[h as int], int_seq(self.sets@[h as int]@)),
                    ));
                    assert(seq_col(self.sets@)[h as int] == seq_opt(self.sets@[h as int]));
                }
            } else {
                proof {
                    assert(seq_col(self.sets@)[h as int] == seq_opt(self.sets@[h as int]));
                }
            }
            h += 1;
        }
        r
    }

    /// The computed timer statistics, seven pairs per timer name: the name
    /// with `.min`, `.max`, `.count`, `.average`, `.std_dev`, `.median` and
    /// `.upper_95` appended, each with its value in micro-units.
    pub fn timer_data_iter(&self) -> (r: Vec<(Vec<u8>, i64)>)
        requires
            self.wf(),
        ensures
            pairs_int(r@) == stat_entries(
                self.names_seq(),
                stats_col(self.stats_col_view()),
                self.names_seq().len() as int,
            ),
    {
        let n = self.names.len();
        let mut r: Vec<(Vec<u8>, i64)> = Vec::new();
        let mut h: usize = 0;
        while h < n
            invariant
                0 <= h <= n,
                self.wf(),
                n == self.names@.len(),
                pairs_int(r@) == stat_entries(self.names_seq(), stats_col(self.timer_data@), h as int),
            decreases n - h,
        {
            let ghost r0 = r@;
            let slot: Option<TimerData> = self.timer_data[h];
            match slot {
                Some(td) => {
                    let name = &self.names[h];
                    r.push((name_with_suffix(name, 1), td.min));
                    r.push((name_with_suffix(name, 2), td.max));
                    r.push((name_with_suffix(name, 3), td.count));
                    r.push((name_with_suffix(name, 4), td.average));
                    r.push((name_with_suffix(name, 5), td.std_dev));
                    r.push((name_with_suffix(name, 6), td.median));
                    r.push((name_with_suffix(name, 7), td.upper_95));
                    proof {
                        assert(stats_col(self.timer_data@)[h as int] == Some(td@));
                        assert(pairs_int(r@) =~= pairs_int(r0) + stat_pairs(
                            self.names_seq()[h as int],
                            td@,
                        ));
                    }
                },
                None => {
                    proof {
                        assert(stats_col(self.timer_data@)[h as int] is None);
                        assert(pairs_int(r@) =~= pairs_int(r0) + Seq::<(Seq<u8>, int)>::empty());
                    }
                },
            }
            h += 1;
        }
        r
    }

    /// The counter column as stored.
    pub closed spec fn counters_col(&self) -> Seq<Option<i64>> {
        self.counters@
    }

    /// The gauge column as stored.
    pub closed spec fn gauges_col(&self) -> Seq<Option<i64>> {
        self.gauges@
    }

    /// The set column as stored.
    pub closed spec fn sets_col(&self) -> Seq<Vec<i64>> {
        self.sets@
    }

    /// The statistics column as stored.
    pub closed spec fn stats_col_view(&self) -> Seq<Option<TimerData>> {
        self.timer_data@
    }
}

/// The entries of one plain column, shared by counters and gauges.
fn iter_int_col(names: &Vec<Vec<u8>>, col: &Vec<Option<i64>>) -> (r: Vec<(Vec<u8>, i64)>)
    requires
        col@.len() == names@.len(),
    ensures
        pairs_int(r@) == entries(
            names@.map_values(|v: Vec<u8>| v@),
            int_col(col@),
            names@.len() as int,
        ),
{
    let n = names.len();
    let ghost nseq = names@.map_values(|v: Vec<u8>| v@);
    let mut r: Vec<(Vec<u8>, i64)> = Vec::new();
    let mut h: usize = 0;
    while h < n
        invariant
            0 <= h <= n,
            n == names@.len(),
            col@.len() == n,
            nseq == names@.map_values(|v: Vec<u8>| v@),
            pairs_int(r@) == entries(nseq, int_col(col@), h as int),
        decreases n - h,
    {
        let ghost r0 = r@;
        let slot: Option<i64> = col[h];
        match slot {
            Some(v) => {
                r.push((slice_to_vec(names[h].as_slice()), v));
                proof {
                    assert(int_col(col@)[h as int] == Some(v as int));
                    assert(pairs_int(r@) =~= pairs_int(r0).push((nseq[h as int], v as int)));
                }
            },
            None => {
                proof {
                    assert(int_col(col@)[h as int] is None);
                }
            },
        }
        h += 1;
    }
    r
}

/// The statistic-name suffixes, by their order in a statistics row.
pub open spec fn suffix_seq(which: int) -> Seq<u8> {
    if which == 1 {
        seq![46u8, 109u8, 105u8, 110u8]  // ".min"
    } else if which == 2 {
        seq![46u8, 109u8, 97u8, 120u8]  // ".max"
    } else if which == 3 {
        seq![46u8, 99u8, 111u8, 117u8, 110u8, 116u8]  // ".count"
    } else if which == 4 {
        seq![46u8, 97u8, 118u8, 101u8, 114u8, 97u8, 103u8, 101u8]  // ".average"
    } else if which == 5 {
        seq![46u8, 115u8, 116u8, 100u8, 95u8, 100u8, 101u8, 118u8]  // ".std_dev"
    } else if which == 6 {
        seq![46u8, 109u8, 101u8, 100u8, 105u8, 97u8, 110u8]  // ".median"
    } else {
        seq![46u8, 117u8, 112u8, 112u8, 101u8, 114u8, 95u8, 57u8, 53u8]  // ".upper_95"
    }
}

/// The seven statistics of one timer, as suffixed name/value pairs.
pub open spec fn stat_pairs(name: Seq<u8>, st: StatsModel) -> Seq<(Seq<u8>, int)> {
    seq![
        (name + suffix_seq(1), st.min),
        (name + suffix_seq(2), st.max),
        (name + suffix_seq(3), st.count),
        (name + suffix_seq(4), st.average),
        (name + suffix_seq(5), st.std_dev),
        (name + suffix_seq(6), st.median),
        (name + suffix_seq(7), st.upper_95),
    ]
}

/// The statistics rows of every timer name, in handle order.
pub open spec fn stat_entries(
    names: Seq<Seq<u8>>,
    col: Seq<Option<StatsModel>>,
    n: int,
) -> Seq<(Seq<u8>, int)>
    decreases n,
{
    if n <= 0 {
        Seq::empty()
    } else {
        let rest = stat_entries(names, col, n - 1);
        match col[n - 1] {
            Some(st) => rest + stat_pairs(names[n - 1], st),
            None => rest,
        }
    }
}

/// The read accessors and the cache's map view agree: every pair an
/// accessor hands out is an entry of the corresponding map, and every entry
/// of the map is handed out.
pub proof fn lemma_entries_match_map<T>(names: Seq<Seq<u8>>, col: Seq<Option<T>>, n: int)
    requires
        distinct_names(names),
        col.len() == names.len(),
        0 <= n <= names.len(),
    ensures
        forall|i: int|
            0 <= i < entries(names, col, n).len() ==> col_map(names, col).contains_key(
                (#[trigger] entries(names, col, n)[i]).0,
            ) && col_map(names, col)[entries(names, col, n)[i].0] == entries(names, col, n)[i].1,
        forall|h: int|
            0 <= h < n && (#[trigger] col[h]) is Some ==> exists|i: int|
                0 <= i < entries(names, col, n).len() && #[trigger] entries(names, col, n)[i] == (
                names[h],
                col[h]->Some_0,
                ),
    decreases n,
{
    if n > 0 {
        lemma_entries_match_map(names, col, n - 1);
        let pre = entries(names, col, n - 1);
        let cur = entries(names, col, n);
        match col[n - 1] {
            Some(v) => {
                assert(cur == pre.push((names[n - 1], v)));
                lemma_col_get(names, col, n - 1);
                assert forall|i: int|
                    0 <= i < cur.len() implies col_map(names, col).contains_key(
                    (#[trigger] cur[i]).0,
                ) && col_map(names, col)[cur[i].0] == cur[i].1 by {
                    if i < pre.len() {
                        assert(cur[i] == pre[i]);
                    } else {
                        assert(cur[i] == (names[n - 1], v));
                    }
                }
                assert forall|h: int|
                    0 <= h < n && (#[trigger] col[h]) is Some implies exists|i: int|
                    0 <= i < cur.len() && #[trigger] cur[i] == (names[h], col[h]->Some_0) by {
                    if h < n - 1 {
                        let i = choose|i: int|
                            0 <= i < pre.len() && #[trigger] pre[i] == (names[h], col[h]->Some_0);
                        assert(cur[i] == (names[h], col[h]->Some_0));
                    } else {
                        assert(cur[cur.len() - 1] == (names[h], col[h]->Some_0));
                    }
                }
            },
            None => {
                assert(cur == pre);
                assert forall|h: int|
                    0 <= h < n && (#[trigger] col[h]) is Some implies exists|i: int|
                    0 <= i < cur.len() && #[trigger] cur[i] == (names[h], col[h]->Some_0) by {
                    let i = choose|i: int|
                        0 <= i < pre.len() && #[trigger] pre[i] == (names[h], col[h]->Some_0);
                    assert(cur[i] == (names[h], col[h]->Some_0));
                }
            },
        }
    }
}

/// A bucket name with one of the statistic suffixes appended.
pub(crate) fn name_with_suffix(name: &Vec<u8>, which: u8) -> (r: Vec<u8>)
    requires
        1 <= which <= 7,
    ensures
        r@ == name@ + suffix_seq(which as int),
{
    let mut r = slice_to_vec(name.as_slice());
    r.push(46);
    if which == 1 {
        r.push(109);
        r.push(105);
        r.push(110);
    } else if which == 2 {
        r.push(109);
        r.push(97);
        r.push(120);
    } else if which == 3 {
        r.push(99);
        r.push(111);
        r.push(117);
        r.push(110);
        r.push(116);
    } else if which == 4 {
        r.push(97);
        r.push(118);
        r.push(101);
        r.push(114);
        r.push(97);
        r.push(103);
        r.push(101);
    } else if which == 5 {
        r.push(115);
        r.push(116);
        r.push(100);
        r.push(95);
        r.push(100);
        r.push(101);
        r.push(118);
    } else if which == 6 {
        r.push(109);
        r.push(101);
        r.push(100);
        r.push(105);
        r.push(97);
        r.push(110);
    } else {
        r.push(117);
        r.push(112);
        r.push(112);
        r.push(101);
        r.push(114);
        r.push(95);
        r.push(57);
        r.push(53);
    }
    proof {
        assert(r@ =~= name@ + suffix_seq(which as int));
    }
    r
}

} // verus!
