//! The flush-window discipline: how a history of records and flushes
//! partitions counter events into windows.
//!
//! Records and flushes are serialized at the cache (its methods take the
//! cache exclusively), so any concurrent history is some interleaving: one
//! sequence of cache operations. This module proves that under such a
//! history no counter event is lost and none is counted twice — each event's
//! contribution lands in exactly one window's flushed total.

use vstd::prelude::*;

use crate::cache::{contribution, counter_of, lemma_contribution_nonneg, record_one, reset_model,
    with_stats, CacheModel};
use crate::num::sat_add_spec;
use crate::parse::{MetricModel, MetricType};
use crate::stats::seq_sum;

verus! {

/// One serialized cache operation: a recorded event, or one flush tick
/// (statistics, hand-off, reset).
pub ghost enum CacheOp {
    Record(MetricModel),
    Flush,
}

/// What one operation does to the cache.
pub open spec fn apply_op(c: CacheModel, op: CacheOp) -> CacheModel {
    match op {
        CacheOp::Record(m) => record_one(c, m),
        CacheOp::Flush => reset_model(with_stats(c)),
    }
}

/// The cache after a history of operations.
pub open spec fn run_ops(c: CacheModel, ops: Seq<CacheOp>) -> CacheModel
    decreases ops.len(),
{
    if ops.len() == 0 {
        c
    } else {
        apply_op(run_ops(c, ops.drop_last()), ops.last())
    }
}

/// The totals a counter name shows in the flushed snapshots of a history,
/// one per flush, in order.
pub open spec fn flushed_totals(c: CacheModel, ops: Seq<CacheOp>, n: Seq<u8>) -> Seq<int>
    decreases ops.len(),
{
    if ops.len() == 0 {
        Seq::empty()
    } else {
        let pre = flushed_totals(c, ops.drop_last(), n);
        match ops.last() {
            CacheOp::Flush => pre.push(counter_of(run_ops(c, ops.drop_last()).counters, n)),
            CacheOp::Record(m) => pre,
        }
    }
}

/// The sum of the contributions that a history's counter events carry for
/// one name.
pub open spec fn total_contributions(ops: Seq<CacheOp>, n: Seq<u8>) -> int
    decreases ops.len(),
{
    if ops.len() == 0 {
        0
    } else {
        total_contributions(ops.drop_last(), n) + match ops.last() {
            CacheOp::Record(m) => if m.metric_type == MetricType::Counter && m.name == n {
                contribution(m.value, m.sample_rate)
            } else {
                0
            },
            CacheOp::Flush => 0,
        }
    }
}

/// Whether every recorded event of a history is well-formed.
pub open spec fn ops_wf(ops: Seq<CacheOp>) -> bool {
    forall|i: int|
        0 <= i < ops.len() ==> match #[trigger] ops[i] {
            CacheOp::Record(m) => m.wf(),
            CacheOp::Flush => true,
        }
}

/// No counter event of a serialized history is lost or counted twice: the
/// flushed window totals of a name, together with what is still pending
/// after the history, add up to the starting total plus every contribution
/// the history carried — each event is attributed to exactly one window.
/// The one proviso is that the totals stay within the machine range, where
/// accumulation would otherwise saturate.
pub proof fn lemma_counter_window_attribution(c: CacheModel, ops: Seq<CacheOp>, n: Seq<u8>)
    requires
        ops_wf(ops),
        0 <= counter_of(c.counters, n),
        counter_of(c.counters, n) + total_contributions(ops, n) <= i64::MAX,
    ensures
        seq_sum(flushed_totals(c, ops, n)) + counter_of(run_ops(c, ops).counters, n) == counter_of(
            c.counters,
            n,
        ) + total_contributions(ops, n),
        0 <= counter_of(run_ops(c, ops).counters, n) <= counter_of(c.counters, n)
            + total_contributions(ops, n),
        0 <= seq_sum(flushed_totals(c, ops, n)),
    decreases ops.len(),
{
    lemma_total_contributions_nonneg(ops, n);
    if ops.len() > 0 {
        let pre_ops = ops.drop_last();
        assert(ops_wf(pre_ops)) by {
            assert forall|i: int|
                0 <= i < pre_ops.len() implies match #[trigger] pre_ops[i] {
                CacheOp::Record(m) => m.wf(),
                CacheOp::Flush => true,
            } by {
                assert(pre_ops[i] == ops[i]);
            }
        }
        lemma_total_contributions_nonneg(pre_ops, n);
        assert(total_contributions(pre_ops, n) <= total_contributions(ops, n)) by {
            match ops.last() {
                CacheOp::Record(m) => {
                    if m.metric_type == MetricType::Counter && m.name == n {
                        assert(ops[ops.len() - 1] == ops.last());
                        assert(m.wf());
                        lemma_contribution_nonneg(m.value, m.sample_rate);
                    }
                },
                CacheOp::Flush => {},
            }
        }
        lemma_counter_window_attribution(c, pre_ops, n);
        let mid = run_ops(c, pre_ops);
        match ops.last() {
            CacheOp::Flush => {
                let fl = flushed_totals(c, ops, n);
                assert(fl.drop_last() =~= flushed_totals(c, pre_ops, n));
                assert(counter_of(run_ops(c, ops).counters, n) == 0);
            },
            CacheOp::Record(m) => {
                assert(flushed_totals(c, ops, n) == flushed_totals(c, pre_ops, n));
                if m.metric_type == MetricType::Counter && m.name == n {
                    assert(ops[ops.len() - 1] == ops.last());
                    assert(m.wf());
                    lemma_contribution_nonneg(m.value, m.sample_rate);
                    let base = counter_of(mid.counters, n);
                    let d = contribution(m.value, m.sample_rate);
                    assert(counter_of(run_ops(c, ops).counters, n) == sat_add_spec(base, d));
                    assert(base + d <= i64::MAX);
                    assert(sat_add_spec(base, d) == base + d);
                } else {
                    match m.metric_type {
                        MetricType::Counter => {
                            assert(counter_of(record_one(mid, m).counters, n) == counter_of(
                                mid.counters,
                                n,
                            ));
                        },
                        MetricType::Gauge => {},
                        MetricType::Timer => {},
                        MetricType::Unique => {},
                    }
                }
            },
        }
    }
}

/// The contributions of well-formed counter events are never negative, so a
/// history's total only grows.
pub proof fn lemma_total_contributions_nonneg(ops: Seq<CacheOp>, n: Seq<u8>)
    requires
        ops_wf(ops),
    ensures
        total_contributions(ops, n) >= 0,
    decreases ops.len(),
{
    if ops.len() > 0 {
        let pre_ops = ops.drop_last();
        assert(ops_wf(pre_ops)) by {
            assert forall|i: int|
                0 <= i < pre_ops.len() implies match #[trigger] pre_ops[i] {
                CacheOp::Record(m) => m.wf(),
                CacheOp::Flush => true,
            } by {
                assert(pre_ops[i] == ops[i]);
            }
        }
        lemma_total_contributions_nonneg(pre_ops, n);
        match ops.last() {
            CacheOp::Record(m) => {
                if m.metric_type == MetricType::Counter && m.name == n {
                    assert(ops[ops.len() - 1] == ops.last());
                    assert(m.wf());
                    lemma_contribution_nonneg(m.value, m.sample_rate);
                }
            },
            CacheOp::Flush => {},
        }
    }
}

} // verus!
