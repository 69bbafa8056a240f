//! The server module defines the codec used for parsing datagrams and the
//! ingestion step that folds one datagram into the cache.
//!
//! A datagram may carry several newline-separated metric lines. Empty
//! fragments are discarded, each remaining fragment is parsed on its own, and
//! a malformed fragment does not invalidate its siblings. A datagram that
//! yields no event at all is counted once as bad.

use vstd::prelude::*;

use crate::cache::{record_bad_model, record_seq, CacheModel, CapellaCache};
use crate::parse::{lemma_run_end, lemma_run_end_is, parse_metric, parse_spec, run_end, Metric,
    MetricModel};

verus! {

/// A byte that does not end a metric line.
pub open spec fn not_nl_pred() -> spec_fn(u8) -> bool {
    |b: u8| b != 10
}

/// The end of the metric line that starts at `i`.
pub open spec fn line_end(s: Seq<u8>, i: int) -> int {
    run_end(s, i, not_nl_pred())
}

/// The events a datagram payload denotes from position `i` on: one event per
/// newline-separated fragment that is non-empty and well-formed.
pub open spec fn decoded(p: Seq<u8>, i: int) -> Seq<MetricModel>
    decreases p.len() - i
    when 0 <= i <= p.len()
    via decoded_decreases
{
    if i >= p.len() {
        Seq::empty()
    } else {
        let j = line_end(p, i);
        let frag = p.subrange(i, j);
        let rest = if j < p.len() {
            decoded(p, j + 1)
        } else {
            Seq::empty()
        };
        match parse_spec(frag) {
            Some(m) => seq![m] + rest,
            None => rest,
        }
    }
}

#[via_fn]
proof fn decoded_decreases(p: Seq<u8>, i: int) {
    lemma_run_end(p, i, not_nl_pred());
}

/// What one datagram does to the cache: its events are recorded in order,
/// and a datagram that yields none counts once as bad.
pub open spec fn ingest_model(c: CacheModel, p: Seq<u8>) -> CacheModel {
    let ms = decoded(p, 0);
    if ms.len() == 0 {
        record_bad_model(c)
    } else {
        record_seq(c, ms)
    }
}

/// The mathematical events a vector of metrics holds.
pub open spec fn metrics_view(s: Seq<Metric>) -> Seq<MetricModel> {
    s.map_values(|m: Metric| m@)
}

/// `StatsCodec` is the datagram parser: it turns one payload into the metric
/// events its well-formed lines denote.
pub struct StatsCodec;

/// The end of the metric line that starts at `from`.
fn scan_line(p: &[u8], from: usize) -> (r: usize)
    requires
        from <= p@.len(),
    ensures
        r as int == line_end(p@, from as int),
        from <= r <= p@.len(),
{
    let n = p.len();
    let mut i = from;
    while i < n && p[i] != 10
        invariant
            from <= i <= n,
            n == p@.len(),
            forall|j: int| from <= j < i ==> p@[j] != 10,
        decreases n - i,
    {
        i += 1;
    }
    proof {
        assert forall|j: int| from <= j < i implies (not_nl_pred())(p@[j]) by {
            assert(p@[j] != 10);
        }
        if i < n {
            assert(!(not_nl_pred())(p@[i as int]));
        }
        lemma_run_end_is(p@, from as int, i as int, not_nl_pred());
    }
    i
}

impl StatsCodec {
    /// Break one datagram payload into its metric events, dropping empty and
    /// malformed fragments.
    pub fn decode(&mut self, buf: &[u8]) -> (r: Vec<Metric>)
        ensures
            metrics_view(r@) == decoded(buf@, 0),
            forall|k: int| 0 <= k < r@.len() ==> (#[trigger] r@[k])@.wf(),
    {
        let n = buf.len();
        let mut out: Vec<Metric> = Vec::new();
        let mut i: usize = 0;
        while i < n
            invariant
                0 <= i <= n,
                n == buf@.len(),
                metrics_view(out@) + decoded(buf@, i as int) == decoded(buf@, 0),
                forall|k: int| 0 <= k < out@.len() ==> (#[trigger] out@[k])@.wf(),
            decreases n - i,
        {
            let j = scan_line(buf, i);
            let frag = vstd::slice::slice_subrange(buf, i, j);
            let ghost out0 = out@;
            let ghost rest = if (j as int) < buf@.len() {
                decoded(buf@, j as int + 1)
            } else {
                Seq::<MetricModel>::empty()
            };
            proof {
                assert(decoded(buf@, i as int) == (match parse_spec(buf@.subrange(
                    i as int,
                    j as int,
                )) {
                    Some(m) => seq![m] + rest,
                    None => rest,
                }));
            }
            match parse_metric(frag) {
                Ok(m) => {
                    out.push(m);
                    proof {
                        let pm = parse_spec(buf@.subrange(i as int, j as int))->Some_0;
                        assert(metrics_view(out@) =~= metrics_view(out0).push(pm));
                        assert(metrics_view(out0).push(pm) =~= metrics_view(out0) + seq![pm]);
                        assert(metrics_view(out@) + rest =~= metrics_view(out0) + (seq![pm]
                            + rest));
                    }
                },
                Err(_) => {},
            }
            if j < n {
                i = j + 1;
            } else {
                i = n;
            }
        }
        proof {
            assert(decoded(buf@, n as int) =~= Seq::<MetricModel>::empty());
            assert(metrics_view(out@) =~= metrics_view(out@) + decoded(buf@, n as int));
        }
        out
    }
}

/// Fold one datagram into the cache: every event its lines denote is
/// recorded in order, and a datagram that yields none is counted once as bad.
pub fn ingest(cache: &mut CapellaCache, buf: &[u8])
    requires
        old(cache).wf(),
    ensures
        final(cache).wf(),
        final(cache)@ == ingest_model(old(cache)@, buf@),
{
    let mut codec = StatsCodec;
    let metrics = codec.decode(buf);
    if metrics.is_empty() {
        cache.bad_metric_count_increase();
    } else {
        let ghost c0 = cache@;
        let ghost all = metrics_view(metrics@);
        let n = metrics.len();
        let mut i: usize = 0;
        while i < n
            invariant
                0 <= i <= n,
                n == metrics@.len(),
                all == metrics_view(metrics@),
                forall|k: int| 0 <= k < metrics@.len() ==> (#[trigger] metrics@[k])@.wf(),
                cache.wf(),
                cache@ == record_seq(c0, all.subrange(0, i as int)),
            decreases n - i,
        {
            cache.add_metric(&metrics[i]);
            proof {
                let pre = all.subrange(0, i as int);
                let cur = all.subrange(0, i as int + 1);
                assert(cur.drop_last() =~= pre);
                assert(cur.last() == metrics@[i as int]@);
            }
            i += 1;
        }
        proof {
            assert(all.subrange(0, n as int) =~= all);
        }
    }
}

} // verus!
