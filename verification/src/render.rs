//! Rendering a flush window into the graphite plain-text line format:
//! one `name value timestamp\n` line per aggregate.
//!
//! Values are written as decimal numbers: the whole units, then a dot and the
//! fraction digits with trailing zeros trimmed, the dot left out when the
//! fraction is zero. Counts and the two totals are written as plain integers.

use vstd::prelude::*;
use vstd::slice::slice_to_vec;

use crate::cache::{entries, int_col, pairs_int, pairs_seq, reset_model, seq_col, stat_entries,
    stats_col, suffix_seq, with_stats, CapellaCache};

verus! {

/// The decimal digits of a natural number, most significant first.
pub open spec fn dec_nat(n: nat) -> Seq<u8>
    decreases n,
{
    if n < 10 {
        seq![(48 + n) as u8]
    } else {
        dec_nat(n / 10).push((48 + n % 10) as u8)
    }
}

/// The decimal digits of an integer, with a minus sign when negative.
pub open spec fn dec_int(v: int) -> Seq<u8> {
    if v < 0 {
        seq![45u8] + dec_nat((-v) as nat)
    } else {
        dec_nat(v as nat)
    }
}

/// Exactly `k` decimal digits of `f`, zero-padded, most significant first.
pub open spec fn dec_pad(f: nat, k: nat) -> Seq<u8>
    decreases k,
{
    if k == 0 {
        Seq::empty()
    } else {
        dec_pad(f / 10, (k - 1) as nat).push((48 + f % 10) as u8)
    }
}

/// A digit run with its trailing zero digits removed.
pub open spec fn trim_zeros(s: Seq<u8>) -> Seq<u8>
    decreases s.len(),
{
    if s.len() > 0 && s.last() == 48 {
        trim_zeros(s.drop_last())
    } else {
        s
    }
}

/// A metric value in micro-units written as a decimal number.
pub open spec fn dec_units(units: int) -> Seq<u8> {
    let mag = if units >= 0 {
        units
    } else {
        -units
    };
    let whole = dec_nat((mag / 1_000_000) as nat);
    let fp = (mag % 1_000_000) as nat;
    let digits = if fp == 0 {
        whole
    } else {
        whole + seq![46u8] + trim_zeros(dec_pad(fp, 6))
    };
    if units < 0 {
        seq![45u8] + digits
    } else {
        digits
    }
}

/// One graphite line: the name, the rendered value and the timestamp,
/// separated by single spaces and ended by a newline.
pub open spec fn metric_line(name: Seq<u8>, value: Seq<u8>, time: Seq<u8>) -> Seq<u8> {
    name + seq![32u8] + value + seq![32u8] + time + seq![10u8]
}

/// The lines of a sequence of name/value entries, values in micro-units.
pub open spec fn render_entries(es: Seq<(Seq<u8>, int)>, time: Seq<u8>) -> Seq<u8>
    decreases es.len(),
{
    if es.len() == 0 {
        Seq::empty()
    } else {
        render_entries(es.drop_last(), time) + metric_line(
            es.last().0,
            dec_units(es.last().1),
            time,
        )
    }
}

/// The lines of a sequence of set entries: each name with `.count` appended
/// and the number of distinct members as the value.
pub open spec fn render_counts(es: Seq<(Seq<u8>, Seq<int>)>, time: Seq<u8>) -> Seq<u8>
    decreases es.len(),
{
    if es.len() == 0 {
        Seq::empty()
    } else {
        render_counts(es.drop_last(), time) + metric_line(
            es.last().0 + suffix_seq(3),
            dec_nat(es.last().1.len()),
            time,
        )
    }
}

/// The name under which the seen total is exported.
pub open spec fn total_metrics_name() -> Seq<u8> {
    // "capella.total_metrics"
    seq![
        99u8, 97u8, 112u8, 101u8, 108u8, 108u8, 97u8, 46u8, 116u8, 111u8, 116u8, 97u8, 108u8,
        95u8, 109u8, 101u8, 116u8, 114u8, 105u8, 99u8, 115u8,
    ]
}

/// The name under which the bad total is exported.
pub open spec fn bad_metrics_name() -> Seq<u8> {
    // "capella.bad_metrics"
    seq![
        99u8, 97u8, 112u8, 101u8, 108u8, 108u8, 97u8, 46u8, 98u8, 97u8, 100u8, 95u8, 109u8,
        101u8, 116u8, 114u8, 105u8, 99u8, 115u8,
    ]
}

/// The whole buffer of one flush window: the counter, gauge and timer
/// statistic lines, the set count lines, then the two totals.
pub open spec fn rendered(
    counter_es: Seq<(Seq<u8>, int)>,
    gauge_es: Seq<(Seq<u8>, int)>,
    stat_es: Seq<(Seq<u8>, int)>,
    set_es: Seq<(Seq<u8>, Seq<int>)>,
    seen: nat,
    bad: nat,
    time: Seq<u8>,
) -> Seq<u8> {
    render_entries(counter_es, time) + render_entries(gauge_es, time) + render_entries(
        stat_es,
        time,
    ) + render_counts(set_es, time) + metric_line(total_metrics_name(), dec_nat(seen), time)
        + metric_line(bad_metrics_name(), dec_nat(bad), time)
}

/// The decimal digits of a machine natural.
fn u64_to_dec(n: u64) -> (r: Vec<u8>)
    ensures
        r@ == dec_nat(n as nat),
    decreases n,
{
    if n < 10 {
        let mut r: Vec<u8> = Vec::new();
        r.push(48 + (n as u8));
        proof {
            assert(r@ =~= dec_nat(n as nat));
        }
        r
    } else {
        let mut r = u64_to_dec(n / 10);
        r.push(48 + ((n % 10) as u8));
        r
    }
}

/// The decimal digits of a signed machine integer.
pub fn render_i64(v: i64) -> (r: Vec<u8>)
    ensures
        r@ == dec_int(v as int),
{
    if v >= 0 {
        u64_to_dec(v as u64)
    } else {
        let mag: u64 = (-(v as i128)) as u64;
        let mut r: Vec<u8> = Vec::new();
        r.push(45);
        let mut digits = u64_to_dec(mag);
        r.append(&mut digits);
        proof {
            assert(r@ =~= dec_int(v as int));
        }
        r
    }
}

/// A metric value in micro-units written as a decimal number.
pub fn render_units(units: i64) -> (r: Vec<u8>)
    ensures
        r@ == dec_units(units as int),
{
    let mag: u64 = if units >= 0 {
        units as u64
    } else {
        (-(units as i128)) as u64
    };
    let whole: u64 = mag / 1_000_000;
    let fp: u64 = mag % 1_000_000;
    let mut digits = u64_to_dec(whole);
    if fp > 0 {
        digits.push(46);
        let mut frac = pad6_digits(fp);
        while frac.len() > 0 && frac[frac.len() - 1] == 48
            invariant
                trim_zeros(frac@) == trim_zeros(dec_pad(fp as nat, 6)),
            decreases frac@.len(),
        {
            let ghost f0 = frac@;
            frac.pop();
            proof {
                assert(frac@ =~= f0.drop_last());
            }
        }
        proof {
            assert(trim_zeros(frac@) == frac@);
        }
        digits.append(&mut frac);
    }
    if units < 0 {
        let mut r: Vec<u8> = Vec::new();
        r.push(45);
        r.append(&mut digits);
        proof {
            assert(r@ =~= dec_units(units as int));
        }
        r
    } else {
        proof {
            assert(digits@ =~= dec_units(units as int));
        }
        digits
    }
}

/// The six zero-padded fraction digits of a value below one million.
fn pad6_digits(f: u64) -> (r: Vec<u8>)
    requires
        f < 1_000_000,
    ensures
        r@ == dec_pad(f as nat, 6),
{
    let mut r: Vec<u8> = Vec::new();
    r.push(48 + ((f / 100_000 % 10) as u8));
    r.push(48 + ((f / 10_000 % 10) as u8));
    r.push(48 + ((f / 1_000 % 10) as u8));
    r.push(48 + ((f / 100 % 10) as u8));
    r.push(48 + ((f / 10 % 10) as u8));
    r.push(48 + ((f % 10) as u8));
    proof {
        assert(r@ =~= dec_pad(f as nat, 6)) by {
            reveal_with_fuel(dec_pad, 8);
            assert(f as nat / 10 / 10 / 10 / 10 / 10 / 10 == 0) by {
                assert(f as nat / 10 < 100_000);
            }
        }
    }
    r
}

/// One graphite line for a value in micro-units.
pub fn make_metric_string(name: &[u8], units: i64, time: &[u8]) -> (r: Vec<u8>)
    ensures
        r@ == metric_line(name@, dec_units(units as int), time@),
{
    let mut r = slice_to_vec(name);
    r.push(32);
    let mut v = render_units(units);
    r.append(&mut v);
    r.push(32);
    let mut t = slice_to_vec(time);
    r.append(&mut t);
    r.push(10);
    proof {
        assert(r@ =~= metric_line(name@, dec_units(units as int), time@));
    }
    r
}

/// One graphite line for a plain integer count.
fn make_count_string(name: &[u8], count: u64, time: &[u8]) -> (r: Vec<u8>)
    ensures
        r@ == metric_line(name@, dec_nat(count as nat), time@),
{
    let mut r = slice_to_vec(name);
    r.push(32);
    let mut v = u64_to_dec(count);
    r.append(&mut v);
    r.push(32);
    let mut t = slice_to_vec(time);
    r.append(&mut t);
    r.push(10);
    proof {
        assert(r@ =~= metric_line(name@, dec_nat(count as nat), time@));
    }
    r
}

/// The byte name under which the seen total is exported.
fn total_metrics_name_vec() -> (r: Vec<u8>)
    ensures
        r@ == total_metrics_name(),
{
    let mut r: Vec<u8> = Vec::new();
    r.push(99);
    r.push(97);
    r.push(112);
    r.push(101);
    r.push(108);
    r.push(108);
    r.push(97);
    r.push(46);
    r.push(116);
    r.push(111);
    r.push(116);
    r.push(97);
    r.push(108);
    r.push(95);
    r.push(109);
    r.push(101);
    r.push(116);
    r.push(114);
    r.push(105);
    r.push(99);
    r.push(115);
    proof {
        assert(r@ =~= total_metrics_name());
    }
    r
}

/// The byte name under which the bad total is exported.
fn bad_metrics_name_vec() -> (r: Vec<u8>)
    ensures
        r@ == bad_metrics_name(),
{
    let mut r: Vec<u8> = Vec::new();
    r.push(99);
    r.push(97);
    r.push(112);
    r.push(101);
    r.push(108);
    r.push(108);
    r.push(97);
    r.push(46);
    r.push(98);
    r.push(97);
    r.push(100);
    r.push(95);
    r.push(109);
    r.push(101);
    r.push(116);
    r.push(114);
    r.push(105);
    r.push(99);
    r.push(115);
    proof {
        assert(r@ =~= bad_metrics_name());
    }
    r
}

/// The current time in whole seconds since the epoch.
///
/// Relies on chrono's `Local::now` and `DateTime::timestamp`: the result
/// depends on the system clock, so nothing is promised of its value.
#[verifier::external_body]
fn now_unix() -> i64 {
    chrono::Local::now().timestamp()
}

impl CapellaCache {
    /// Render every aggregate of the current window as graphite lines, all
    /// stamped with the given time.
    pub fn render_snapshot(&self, time: &[u8]) -> (r: Vec<u8>)
        requires
            self.wf(),
        ensures
            r@ == rendered(
                entries(
                    self.names_seq(),
                    int_col(self.counters_col()),
                    self.names_seq().len() as int,
                ),
                entries(
                    self.names_seq(),
                    int_col(self.gauges_col()),
                    self.names_seq().len() as int,
                ),
                stat_entries(
                    self.names_seq(),
                    stats_col(self.stats_col_view()),
                    self.names_seq().len() as int,
                ),
                entries(self.names_seq(), seq_col(self.sets_col()), self.names_seq().len() as int),
                self@.metrics_seen,
                self@.bad_metrics,
                time@,
            ),
    {
        let mut buf: Vec<u8> = Vec::new();
        let counters = self.counters_iter();
        append_entry_lines(&mut buf, &counters, time);
        let gauges = self.gauges_iter();
        append_entry_lines(&mut buf, &gauges, time);
        let stats = self.timer_data_iter();
        append_entry_lines(&mut buf, &stats, time);
        let sets = self.sets_iter();
        let ghost before_sets = buf@;
        let mut h: usize = 0;
        let n = sets.len();
        while h < n
            invariant
                0 <= h <= n,
                n == sets@.len(),
                buf@ == before_sets + render_counts(pairs_seq(sets@).subrange(0, h as int), time@),
            decreases n - h,
        {
            proof {
                let pre = pairs_seq(sets@).subrange(0, h as int);
                let cur = pairs_seq(sets@).subrange(0, h as int + 1);
                assert(cur.drop_last() =~= pre);
                assert(cur.last() == (sets@[h as int].0@, crate::stats::int_seq(
                    sets@[h as int].1@,
                )));
            }
            let key = crate::cache::name_with_suffix(&sets[h].0, 3);
            let mut line = make_count_string(key.as_slice(), sets[h].1.len() as u64, time);
            buf.append(&mut line);
            h += 1;
        }
        proof {
            assert(pairs_seq(sets@).subrange(0, n as int) =~= pairs_seq(sets@));
        }
        let tn = total_metrics_name_vec();
        let mut line = make_count_string(tn.as_slice(), self.total_metrics(), time);
        buf.append(&mut line);
        let bn = bad_metrics_name_vec();
        let mut line2 = make_count_string(bn.as_slice(), self.total_bad_metrics(), time);
        buf.append(&mut line2);
        buf
    }

    /// Close the current window: compute the timer statistics, render every
    /// aggregate with the present wall-clock time, clear the window's
    /// buckets, and hand the rendered lines back for delivery. The window's
    /// data is cleared whether or not the caller manages to deliver it.
    pub fn purge_window(&mut self) -> (r: Vec<u8>)
        requires
            old(self).wf(),
        ensures
            final(self).wf(),
            final(self)@ == reset_model(with_stats(old(self)@)),
            exists|t: int|
                r@ == rendered(
                    entries(
                        old(self).names_seq(),
                        int_col(old(self).counters_col()),
                        old(self).names_seq().len() as int,
                    ),
                    entries(
                        old(self).names_seq(),
                        int_col(old(self).gauges_col()),
                        old(self).names_seq().len() as int,
                    ),
                    stat_entries(
                        old(self).names_seq(),
                        old(self).stats_after(),
                        old(self).names_seq().len() as int,
                    ),
                    entries(
                        old(self).names_seq(),
                        seq_col(old(self).sets_col()),
                        old(self).names_seq().len() as int,
                    ),
                    old(self)@.metrics_seen,
                    old(self)@.bad_metrics,
                    #[trigger] dec_int(t),
                ),
    {
        self.make_timer_stats();
        let t = now_unix();
        let time = render_i64(t);
        let buf = self.render_snapshot(time.as_slice());
        self.reset();
        proof {
            assert(with_stats(with_stats(old(self)@)) == with_stats(old(self)@)) by {
                assert(with_stats(with_stats(old(self)@)).timer_data =~= with_stats(
                    old(self)@,
                ).timer_data);
            }
        }
        buf
    }
}

/// Append one line per name/value entry.
fn append_entry_lines(buf: &mut Vec<u8>, es: &Vec<(Vec<u8>, i64)>, time: &[u8])
    ensures
        final(buf)@ == old(buf)@ + render_entries(pairs_int(es@), time@),
{
    let n = es.len();
    let mut h: usize = 0;
    while h < n
        invariant
            0 <= h <= n,
            n == es@.len(),
            buf@ == old(buf)@ + render_entries(pairs_int(es@).subrange(0, h as int), time@),
        decreases n - h,
    {
        proof {
            let pre = pairs_int(es@).subrange(0, h as int);
            let cur = pairs_int(es@).subrange(0, h as int + 1);
            assert(cur.drop_last() =~= pre);
            assert(cur.last() == (es@[h as int].0@, es@[h as int].1 as int));
        }
        let mut line = make_metric_string(es[h].0.as_slice(), es[h].1, time);
        buf.append(&mut line);
        h += 1;
    }
    proof {
        assert(pairs_int(es@).subrange(0, n as int) =~= pairs_int(es@));
    }
}

} // verus!
