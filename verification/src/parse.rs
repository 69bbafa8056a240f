//! The parse module turns one wire-protocol line into a typed metric event.
//!
//! The grammar of a line, anchored at both ends, is
//!
//! ```text
//! name ":" ["+"|"-"] number "|" type ["|@" rate]
//! ```
//!
//! where `name` is one or more word bytes or dots, `number` is an unsigned
//! decimal literal (digits with at most one dot, ending in a digit), `type` is
//! one of `c`, `g`, `ms`, `s`, and `rate` is a decimal literal with digits on
//! both sides of the dot, constrained to (0, 1]. A leading `-` negates the
//! value except for counters, which are monotonic by design: there the sign
//! token is consumed but ignored.
//!
//! Values are read as micro-units (`SCALE` per whole unit); fraction digits
//! beyond the sixth are truncated, and literals whose integer part exceeds
//! `MAX_INT_PART` are rejected.

use vstd::prelude::*;
use vstd::slice::{slice_subrange, slice_to_vec};

use crate::error::{CapellaResult, Error};
use crate::num::{digits_val, is_digit, lemma_digits_val_bound, lemma_digits_val_prefix_le,
    lemma_pow10_mono, lemma_pow10_vals, pow10, MAX_INT_PART, MAX_UNITS, SCALE};

verus! {

/// `MetricType` defines what kind of metric was parsed from a client.
#[derive(Clone, Copy, Debug, Eq, PartialEq, Structural)]
pub enum MetricType {
    Counter,
    Gauge,
    Unique,
    Timer,
}

/// A word byte of a metric name or of a type token: an ASCII letter, digit
/// or underscore.
pub open spec fn is_word_byte(b: u8) -> bool {
    (97 <= b <= 122) || (65 <= b <= 90) || is_digit(b) || b == 95
}

/// A byte a metric name may hold: a word byte or a dot.
pub open spec fn is_name_byte(b: u8) -> bool {
    is_word_byte(b) || b == 46
}

/// A byte a number literal may hold: a digit or a dot.
pub open spec fn is_num_byte(b: u8) -> bool {
    is_digit(b) || b == 46
}

/// The end of the run of bytes satisfying `pred` that starts at `i`.
pub open spec fn run_end(s: Seq<u8>, i: int, pred: spec_fn(u8) -> bool) -> int
    decreases s.len() - i
    when 0 <= i <= s.len()
{
    if i < s.len() && pred(s[i]) {
        run_end(s, i + 1, pred)
    } else {
        i
    }
}

pub open spec fn name_pred() -> spec_fn(u8) -> bool {
    |b: u8| is_name_byte(b)
}

pub open spec fn digit_pred() -> spec_fn(u8) -> bool {
    |b: u8| is_digit(b)
}

pub open spec fn word_pred() -> spec_fn(u8) -> bool {
    |b: u8| is_word_byte(b)
}

pub open spec fn num_pred() -> spec_fn(u8) -> bool {
    |b: u8| is_num_byte(b)
}

pub open spec fn name_end(s: Seq<u8>, i: int) -> int {
    run_end(s, i, name_pred())
}

pub open spec fn digit_end(s: Seq<u8>, i: int) -> int {
    run_end(s, i, digit_pred())
}

pub open spec fn word_end(s: Seq<u8>, i: int) -> int {
    run_end(s, i, word_pred())
}

pub open spec fn num_end(s: Seq<u8>, i: int) -> int {
    run_end(s, i, num_pred())
}

/// The basic facts about a run: it stays in bounds, every byte inside it
/// satisfies the predicate, and the byte after it (if any) does not.
pub proof fn lemma_run_end(s: Seq<u8>, i: int, pred: spec_fn(u8) -> bool)
    requires
        0 <= i <= s.len(),
    ensures
        i <= run_end(s, i, pred) <= s.len(),
        forall|j: int| i <= j < run_end(s, i, pred) ==> pred(s[j]),
        run_end(s, i, pred) < s.len() ==> !pred(s[run_end(s, i, pred)]),
    decreases s.len() - i,
{
    if i < s.len() && pred(s[i]) {
        lemma_run_end(s, i + 1, pred);
    }
}

/// A position `e` with those three properties is the end of the run.
pub proof fn lemma_run_end_is(s: Seq<u8>, i: int, e: int, pred: spec_fn(u8) -> bool)
    requires
        0 <= i <= e <= s.len(),
        forall|j: int| i <= j < e ==> pred(s[j]),
        e < s.len() ==> !pred(s[e]),
    ensures
        run_end(s, i, pred) == e,
    decreases e - i,
{
    if i < e {
        lemma_run_end_is(s, i + 1, e, pred);
    }
}

/// A fraction digit run filled out with trailing zero digits to six places.
pub open spec fn pad_to6(s: Seq<u8>) -> Seq<u8>
    decreases 6 - s.len()
    when s.len() <= 6
{
    if s.len() >= 6 {
        s
    } else {
        pad_to6(s.push(48))
    }
}

/// Micro-units denoted by the fraction digits of a literal; digits beyond the
/// sixth are truncated.
pub open spec fn frac_units(s: Seq<u8>) -> nat {
    if s.len() >= 6 {
        digits_val(s.subrange(0, 6))
    } else {
        digits_val(pad_to6(s))
    }
}

/// Micro-units denoted by an integer digit run and a fraction digit run;
/// `None` when the integer part is out of range.
pub open spec fn lit_units(intd: Seq<u8>, frac: Seq<u8>) -> Option<nat> {
    if digits_val(intd) > MAX_INT_PART as nat {
        None
    } else {
        Some(digits_val(intd) * 1_000_000 + frac_units(frac))
    }
}

/// The magnitude, in micro-units, of the number literal that starts at `i`
/// and runs to `num_end`; `None` when the region is not a well-formed
/// literal or is out of range.
pub open spec fn number_value(p: Seq<u8>, i: int) -> Option<nat>
    recommends
        0 <= i <= p.len(),
{
    let m = num_end(p, i);
    let d1 = digit_end(p, i);
    if m == d1 {
        if d1 > i {
            lit_units(p.subrange(i, d1), Seq::<u8>::empty())
        } else {
            None
        }
    } else {
        // the first non-digit number byte is a dot
        let d2 = digit_end(p, d1 + 1);
        if d2 == m && m > d1 + 1 {
            lit_units(p.subrange(i, d1), p.subrange(d1 + 1, m))
        } else {
            None
        }
    }
}

/// The sample rate, in micro-units, denoted by the bytes from `i` to the end
/// of the line: digits, a dot, digits, constrained to (0, 1].
pub open spec fn rate_value(p: Seq<u8>, i: int) -> Option<nat>
    recommends
        0 <= i <= p.len(),
{
    let d1 = digit_end(p, i);
    if d1 > i && d1 < p.len() && p[d1] == 46 {
        let d2 = digit_end(p, d1 + 1);
        if d2 == p.len() && d2 > d1 + 1 {
            match lit_units(p.subrange(i, d1), p.subrange(d1 + 1, d2)) {
                Some(u) => if 1 <= u <= SCALE as nat {
                    Some(u)
                } else {
                    None
                },
                None => None,
            }
        } else {
            None
        }
    } else {
        None
    }
}

/// The metric type denoted by a type token.
pub open spec fn type_of_token(t: Seq<u8>) -> Option<MetricType> {
    if t == seq![99u8] {
        Some(MetricType::Counter)
    } else if t == seq![103u8] {
        Some(MetricType::Gauge)
    } else if t == seq![109u8, 115u8] {
        Some(MetricType::Timer)
    } else if t == seq![115u8] {
        Some(MetricType::Unique)
    } else {
        None
    }
}

/// The mathematical content of one parsed metric event.
pub ghost struct MetricModel {
    pub name: Seq<u8>,
    pub value: int,
    pub metric_type: MetricType,
    pub sample_rate: Option<int>,
}

impl MetricModel {
    /// A well-formed event: a non-empty name of name bytes, a value within
    /// the fixed-point range (non-negative for counters), and a sample rate
    /// in (0, 1] when present.
    pub open spec fn wf(self) -> bool {
        &&& self.name.len() > 0
        &&& forall|i: int| 0 <= i < self.name.len() ==> is_name_byte(#[trigger] self.name[i])
        &&& -(MAX_UNITS as int) <= self.value <= MAX_UNITS as int
        &&& self.metric_type == MetricType::Counter ==> self.value >= 0
        &&& match self.sample_rate {
            Some(r) => 1 <= r <= SCALE as int,
            None => true,
        }
    }
}

/// What one line of the wire protocol denotes: `None` when it is malformed.
pub open spec fn parse_spec(p: Seq<u8>) -> Option<MetricModel> {
    let ne = name_end(p, 0);
    if ne < 1 || ne >= p.len() || p[ne] != 58 {
        None
    } else {
        let neg = ne + 1 < p.len() && p[ne + 1] == 45;
        let has_sign = ne + 1 < p.len() && (p[ne + 1] == 43 || p[ne + 1] == 45);
        let vs = if has_sign {
            ne + 2
        } else {
            ne + 1
        };
        let m = num_end(p, vs);
        match number_value(p, vs) {
            None => None,
            Some(units) => if m >= p.len() || p[m] != 124 {
                None
            } else {
                let te = word_end(p, m + 1);
                match type_of_token(p.subrange(m + 1, te)) {
                    None => None,
                    Some(mt) => {
                        let value = if neg && mt != MetricType::Counter {
                            -(units as int)
                        } else {
                            units as int
                        };
                        if te == p.len() {
                            Some(MetricModel {
                                name: p.subrange(0, ne),
                                value,
                                metric_type: mt,
                                sample_rate: None,
                            })
                        } else if te + 2 <= p.len() && p[te] == 124 && p[te + 1] == 64 {
                            match rate_value(p, te + 2) {
                                Some(r) => Some(MetricModel {
                                    name: p.subrange(0, ne),
                                    value,
                                    metric_type: mt,
                                    sample_rate: Some(r as int),
                                }),
                                None => None,
                            }
                        } else {
                            None
                        }
                    },
                }
            },
        }
    }
}

/// A `Metric` defines a published client event. The value and the sample
/// rate are held in micro-units.
#[derive(Clone, Debug, PartialEq)]
pub struct Metric {
    pub name: Vec<u8>,
    pub value: i64,
    pub metric_type: MetricType,
    pub sample_rate: Option<i64>,
}

impl View for Metric {
    type V = MetricModel;

    open spec fn view(&self) -> MetricModel {
        MetricModel {
            name: self.name@,
            value: self.value as int,
            metric_type: self.metric_type,
            sample_rate: match self.sample_rate {
                Some(r) => Some(r as int),
                None => None,
            },
        }
    }
}

impl Metric {
    /// An empty counter event with value zero, the starting point the parser
    /// fills in.
    pub fn new() -> (m: Metric)
        ensures
            m@.name == Seq::<u8>::empty(),
            m@.value == 0,
            m@.metric_type == MetricType::Counter,
            m@.sample_rate is None,
    {
        Metric { name: Vec::new(), value: 0, metric_type: MetricType::Counter, sample_rate: None }
    }
}

fn is_name_byte_x(b: u8) -> (r: bool)
    ensures
        r == is_name_byte(b),
{
    (97 <= b && b <= 122) || (65 <= b && b <= 90) || (48 <= b && b <= 57) || b == 95 || b == 46
}

/// The end of the run of name bytes starting at `from`.
fn scan_name(p: &[u8], from: usize) -> (r: usize)
    requires
        from <= p@.len(),
    ensures
        r as int == name_end(p@, from as int),
        from <= r <= p@.len(),
{
    let n = p.len();
    let mut i = from;
    while i < n && is_name_byte_x(p[i])
        invariant
            from <= i <= n,
            n == p@.len(),
            forall|j: int| from <= j < i ==> is_name_byte(#[trigger] p@[j]),
        decreases n - i,
    {
        i += 1;
    }
    proof {
        assert forall|j: int| from <= j < i implies (name_pred())(p@[j]) by {
            assert(is_name_byte(p@[j]));
        }
        if i < n {
            assert(!(name_pred())(p@[i as int]));
        }
        lemma_run_end_is(p@, from as int, i as int, name_pred());
    }
    i
}

/// The end of the run of digit bytes starting at `from`.
fn scan_digits(p: &[u8], from: usize) -> (r: usize)
    requires
        from <= p@.len(),
    ensures
        r as int == digit_end(p@, from as int),
        from <= r <= p@.len(),
        forall|j: int| from <= j < r ==> is_digit(#[trigger] p@[j]),
{
    let n = p.len();
    let mut i = from;
    while i < n && 48 <= p[i] && p[i] <= 57
        invariant
            from <= i <= n,
            n == p@.len(),
            forall|j: int| from <= j < i ==> is_digit(#[trigger] p@[j]),
        decreases n - i,
    {
        i += 1;
    }
    proof {
        assert forall|j: int| from <= j < i implies (digit_pred())(p@[j]) by {
            assert(is_digit(p@[j]));
        }
        if i < n {
            assert(!(digit_pred())(p@[i as int]));
        }
        lemma_run_end_is(p@, from as int, i as int, digit_pred());
    }
    i
}

/// The end of the run of word bytes starting at `from`.
fn scan_word(p: &[u8], from: usize) -> (r: usize)
    requires
        from <= p@.len(),
    ensures
        r as int == word_end(p@, from as int),
        from <= r <= p@.len(),
{
    let n = p.len();
    let mut i = from;
    while i < n && ((97 <= p[i] && p[i] <= 122) || (65 <= p[i] && p[i] <= 90) || (48 <= p[i] && p[i]
        <= 57) || p[i] == 95)
        invariant
            from <= i <= n,
            n == p@.len(),
            forall|j: int| from <= j < i ==> is_word_byte(#[trigger] p@[j]),
        decreases n - i,
    {
        i += 1;
    }
    proof {
        assert forall|j: int| from <= j < i implies (word_pred())(p@[j]) by {
            assert(is_word_byte(p@[j]));
        }
        if i < n {
            assert(!(word_pred())(p@[i as int]));
        }
        lemma_run_end_is(p@, from as int, i as int, word_pred());
    }
    i
}

/// The number denoted by the digit bytes in `[from, to)`, or `None` as soon
/// as it exceeds `bound`.
fn digits_value_bounded(p: &[u8], from: usize, to: usize, bound: u64) -> (r: Option<u64>)
    requires
        from <= to <= p@.len(),
        forall|j: int| from <= j < to ==> is_digit(#[trigger] p@[j]),
        bound <= 1_000_000_000,
    ensures
        match r {
            Some(v) => v as nat == digits_val(p@.subrange(from as int, to as int)) && v <= bound,
            None => digits_val(p@.subrange(from as int, to as int)) > bound,
        },
{
    let mut acc: u64 = 0;
    let mut i = from;
    while i < to
        invariant
            from <= i <= to <= p@.len(),
            acc <= bound,
            bound <= 1_000_000_000,
            acc as nat == digits_val(p@.subrange(from as int, i as int)),
            forall|j: int| from <= j < to ==> is_digit(#[trigger] p@[j]),
        decreases to - i,
    {
        let d = p[i];
        assert(is_digit(p@[i as int]));
        let nv: u64 = acc * 10 + (d - 48) as u64;
        proof {
            assert(p@.subrange(from as int, i as int + 1).drop_last() =~= p@.subrange(
                from as int,
                i as int,
            ));
            assert(p@.subrange(from as int, i as int + 1).last() == p@[i as int]);
        }
        if nv > bound {
            proof {
                let whole = p@.subrange(from as int, to as int);
                lemma_digits_val_prefix_le(whole, i as int + 1 - from);
                assert(whole.subrange(0, i as int + 1 - from) =~= p@.subrange(
                    from as int,
                    i as int + 1,
                ));
            }
            return None;
        }
        acc = nv;
        i += 1;
    }
    Some(acc)
}

/// Micro-units denoted by the fraction digits in `[from, to)`.
fn frac_value(p: &[u8], from: usize, to: usize) -> (r: u64)
    requires
        from <= to <= p@.len(),
        forall|j: int| from <= j < to ==> is_digit(#[trigger] p@[j]),
    ensures
        r as nat == frac_units(p@.subrange(from as int, to as int)),
        r < 1_000_000,
{
    proof {
        lemma_pow10_vals();
    }
    let width = to - from;
    if width >= 6 {
        let v = match digits_value_bounded(p, from, from + 6, 1_000_000_000) {
            Some(v) => v,
            None => {
                proof {
                    let six = p@.subrange(from as int, from as int + 6);
                    lemma_digits_val_bound(six);
                }
                // a six-digit run is below one million, so this cannot happen
                proof {
                    assert(false);
                }
                0
            },
        };
        proof {
            let s = p@.subrange(from as int, to as int);
            assert(s.subrange(0, 6) =~= p@.subrange(from as int, from as int + 6));
            lemma_digits_val_bound(p@.subrange(from as int, from as int + 6));
        }
        v
    } else {
        let v = match digits_value_bounded(p, from, to, 1_000_000_000) {
            Some(v) => v,
            None => {
                proof {
                    lemma_digits_val_bound(p@.subrange(from as int, to as int));
                    assert(pow10(p@.subrange(from as int, to as int).len()) <= pow10(5)) by {
                        reveal_with_fuel(pow10, 7);
                    }
                    assert(false);
                }
                0
            },
        };
        let mut acc: u64 = v;
        let mut cnt = width;
        let ghost mut cur: Seq<u8> = p@.subrange(from as int, to as int);
        proof {
            lemma_digits_val_bound(cur);
        }
        while cnt < 6
            invariant
                cnt <= 6,
                cur.len() == cnt,
                acc as nat == digits_val(cur),
                (acc as nat) < pow10(cnt as nat),
                forall|j: int| 0 <= j < cur.len() ==> is_digit(#[trigger] cur[j]),
                frac_units(p@.subrange(from as int, to as int)) == if cur.len() >= 6 {
                    digits_val(cur)
                } else {
                    digits_val(pad_to6(cur))
                },
            decreases 6 - cnt,
        {
            proof {
                lemma_pow10_vals();
                lemma_pow10_mono(cnt as nat, 5);
                assert(cur.push(48).drop_last() =~= cur);
                assert(pad_to6(cur) == pad_to6(cur.push(48)));
            }
            acc = acc * 10;
            cnt += 1;
            proof {
                cur = cur.push(48);
                assert(pow10(cnt as nat) == 10 * pow10((cnt - 1) as nat));
                if cur.len() >= 6 {
                    assert(pad_to6(cur) == cur);
                }
            }
        }
        proof {
            lemma_pow10_vals();
        }
        acc
    }
}

/// The `parse_metric` function breaks one wire-protocol line down into a
/// single metric event; every malformed line is rejected with `Error::Parse`.
pub fn parse_metric(packet: &[u8]) -> (r: CapellaResult<Metric>)
    ensures
        parse_spec(packet@) is Some <==> r is Ok,
        r is Ok ==> r->Ok_0@ == parse_spec(packet@)->Some_0,
        r is Ok ==> r->Ok_0@.wf(),
        r is Err ==> r->Err_0 == Error::Parse,
{
    let n = packet.len();
    // the metric name, ended by a colon
    let ne = scan_name(packet, 0);
    if ne < 1 || ne >= n || packet[ne] != 58 {
        return Err(Error::Parse);
    }
    // an optional sign token
    let mut vs = ne + 1;
    let mut neg = false;
    if vs < n && (packet[vs] == 43 || packet[vs] == 45) {
        neg = packet[vs] == 45;
        vs = vs + 1;
    }
    // the unsigned number literal
    let (units, m) = match scan_number(packet, vs) {
        Some(pair) => pair,
        None => {
            return Err(Error::Parse);
        },
    };
    // the type token, introduced by a pipe
    if m >= n || packet[m] != 124 {
        return Err(Error::Parse);
    }
    let ts = m + 1;
    let te = scan_word(packet, ts);
    let token = slice_subrange(packet, ts, te);
    let mt = match MetricType::from_str(token) {
        Ok(t) => t,
        Err(e) => {
            return Err(e);
        },
    };
    proof {
        lemma_run_end(packet@, 0, name_pred());
        assert(units <= 999_999_999u64 * 1_000_000 + 999_999);
    }
    let value: i64 = if neg && mt != MetricType::Counter {
        -(units as i64)
    } else {
        units as i64
    };
    // an optional sample-rate clause
    let sample_rate: Option<i64> = if te == n {
        None
    } else {
        if !(te + 1 < n && packet[te] == 124 && packet[te + 1] == 64) {
            return Err(Error::Parse);
        }
        let rs = te + 2;
        let rd1 = scan_digits(packet, rs);
        if !(rd1 > rs && rd1 < n && packet[rd1] == 46) {
            return Err(Error::Parse);
        }
        let rd2 = scan_digits(packet, rd1 + 1);
        if !(rd2 == n && rd2 > rd1 + 1) {
            return Err(Error::Parse);
        }
        let riv = match digits_value_bounded(packet, rs, rd1, 999_999_999) {
            Some(v) => v,
            None => {
                return Err(Error::Parse);
            },
        };
        let rfv = frac_value(packet, rd1 + 1, rd2);
        let ru: u64 = riv * 1_000_000 + rfv;
        if ru < 1 || ru > 1_000_000 {
            return Err(Error::Parse);
        }
        Some(ru as i64)
    };
    let name = slice_to_vec(slice_subrange(packet, 0, ne));
    proof {
        let ghost_m = parse_spec(packet@)->Some_0;
        assert(ghost_m.name =~= name@);
    }
    Ok(Metric { name, value, metric_type: mt, sample_rate })
}

/// The unsigned number literal that starts at `from`: its magnitude in
/// micro-units and the position just past it.
fn scan_number(p: &[u8], from: usize) -> (r: Option<(u64, usize)>)
    requires
        from <= p@.len(),
    ensures
        r is Some <==> number_value(p@, from as int) is Some,
        r matches Some(pair) ==> {
            &&& pair.0 as nat == number_value(p@, from as int)->Some_0
            &&& pair.1 as int == num_end(p@, from as int)
            &&& pair.1 <= p@.len()
            &&& pair.0 <= MAX_UNITS
        },
{
    let n = p.len();
    let d1 = scan_digits(p, from);
    proof {
        lemma_run_end(p@, from as int, digit_pred());
        assert forall|j: int| from <= j < d1 implies (num_pred())(p@[j]) by {
            assert(is_digit(p@[j]));
        }
    }
    let has_dot = d1 < n && p[d1] == 46;
    if !has_dot {
        // the whole region is the digit run
        proof {
            if (d1 as int) < p@.len() {
                assert(!(num_pred())(p@[d1 as int]));
            }
            lemma_run_end_is(p@, from as int, d1 as int, num_pred());
        }
        if d1 == from {
            return None;
        }
        let iv = match digits_value_bounded(p, from, d1, 999_999_999) {
            Some(v) => v,
            None => {
                return None;
            },
        };
        proof {
            assert(p@.subrange(from as int, d1 as int) =~= p@.subrange(from as int, d1 as int));
        }
        let u: u64 = iv * 1_000_000;
        proof {
            assert(frac_units(Seq::<u8>::empty()) == 0) by {
                reveal_with_fuel(pad_to6, 7);
                reveal_with_fuel(digits_val, 7);
                assert(pad_to6(Seq::<u8>::empty())
                    =~= seq![48u8, 48u8, 48u8, 48u8, 48u8, 48u8]);
            }
        }
        Some((u, d1))
    } else {
        let d2 = scan_digits(p, d1 + 1);
        proof {
            lemma_run_end(p@, d1 as int + 1, digit_pred());
        }
        if d2 == d1 + 1 {
            // a dot with no fraction digits
            proof {
                if (d2 as int) < p@.len() && !is_num_byte(p@[d2 as int]) {
                    assert forall|j: int| from <= j < d2 implies (num_pred())(p@[j]) by {
                        if j < d1 {
                            assert(is_digit(p@[j]));
                        }
                    }
                    lemma_run_end_is(p@, from as int, d2 as int, num_pred());
                } else if (d2 as int) < p@.len() {
                    // region continues: num_end is past d2, but the digit run
                    // after the dot still ends at d2, so the spec rejects too
                    assert forall|j: int| from <= j < d2 implies (num_pred())(p@[j]) by {
                        if j < d1 {
                            assert(is_digit(p@[j]));
                        }
                    }
                    lemma_run_end_nonempty_tail(p@, from as int, d2 as int);
                } else {
                    assert forall|j: int| from <= j < d2 implies (num_pred())(p@[j]) by {
                        if j < d1 {
                            assert(is_digit(p@[j]));
                        }
                    }
                    lemma_run_end_is(p@, from as int, d2 as int, num_pred());
                }
            }
            return None;
        }
        if d2 < n && p[d2] == 46 {
            // a second dot: the number region does not end in a digit
            proof {
                assert forall|j: int| from <= j < d2 implies (num_pred())(p@[j]) by {
                    if j < d1 {
                        assert(is_digit(p@[j]));
                    } else if j > d1 {
                        assert(is_digit(p@[j]));
                    }
                }
                lemma_run_end_nonempty_tail(p@, from as int, d2 as int);
            }
            return None;
        }
        proof {
            assert forall|j: int| from <= j < d2 implies (num_pred())(p@[j]) by {
                if j < d1 {
                    assert(is_digit(p@[j]));
                } else if j > d1 {
                    assert(is_digit(p@[j]));
                }
            }
            if (d2 as int) < p@.len() {
                assert(!(num_pred())(p@[d2 as int]));
            }
            lemma_run_end_is(p@, from as int, d2 as int, num_pred());
        }
        let iv = match digits_value_bounded(p, from, d1, 999_999_999) {
            Some(v) => v,
            None => {
                return None;
            },
        };
        let fv = frac_value(p, d1 + 1, d2);
        let u: u64 = iv * 1_000_000 + fv;
        Some((u, d2))
    }
}

/// When every byte in `[i, e)` satisfies the number-byte predicate and the
/// byte at `e` is a dot, the number region runs strictly past `e`.
proof fn lemma_run_end_nonempty_tail(s: Seq<u8>, i: int, e: int)
    requires
        0 <= i <= e < s.len(),
        forall|j: int| i <= j < e ==> (num_pred())(s[j]),
        is_num_byte(s[e]),
    ensures
        run_end(s, i, num_pred()) > e,
    decreases e - i,
{
    assert((num_pred())(s[e]));
    if i < e {
        lemma_run_end_nonempty_tail(s, i + 1, e);
    } else {
        lemma_run_end(s, e + 1, num_pred());
        assert(run_end(s, e, num_pred()) == run_end(s, e + 1, num_pred()));
    }
}

/// The empty fraction denotes zero micro-units.
pub proof fn lemma_frac_units_empty()
    ensures
        frac_units(Seq::<u8>::empty()) == 0,
{
    reveal_with_fuel(pad_to6, 7);
    reveal_with_fuel(digits_val, 7);
    assert(pad_to6(Seq::<u8>::empty()) =~= seq![48u8, 48u8, 48u8, 48u8, 48u8, 48u8]);
}

/// What parsing a whole composed line yields: for any name, optional sign
/// token, digit run and known type token, the line
/// `name ":" [sign] digits "|" tok` parses to an event with that name, the
/// digits' value (negated only when the sign is a minus and the type is not
/// a counter), that type, and no sample rate.
pub proof fn lemma_parse_line(name: Seq<u8>, sign: Option<u8>, digits: Seq<u8>, tok: Seq<u8>)
    requires
        name.len() >= 1,
        forall|i: int| 0 <= i < name.len() ==> is_name_byte(#[trigger] name[i]),
        digits.len() >= 1,
        forall|i: int| 0 <= i < digits.len() ==> is_digit(#[trigger] digits[i]),
        digits_val(digits) <= MAX_INT_PART as nat,
        match sign {
            Some(b) => b == 43 || b == 45,
            None => true,
        },
        type_of_token(tok) is Some,
        forall|i: int| 0 <= i < tok.len() ==> is_word_byte(#[trigger] tok[i]),
    ensures
        ({
            let sg = match sign {
                Some(b) => seq![b],
                None => Seq::<u8>::empty(),
            };
            let p = name + seq![58u8] + sg + digits + seq![124u8] + tok;
            let mt = type_of_token(tok)->Some_0;
            let mag = digits_val(digits) * 1_000_000;
            let value: int = if sign == Some(45u8) && mt != MetricType::Counter {
                -(mag as int)
            } else {
                mag as int
            };
            parse_spec(p) == Some(
                MetricModel { name, value, metric_type: mt, sample_rate: None },
            )
        }),
{
    let sg = match sign {
        Some(b) => seq![b],
        None => Seq::<u8>::empty(),
    };
    let p = name + seq![58u8] + sg + digits + seq![124u8] + tok;
    let nl = name.len() as int;
    let so = sg.len() as int;
    let vs = nl + 1 + so;
    let dl = digits.len() as int;
    let m = vs + dl;
    let ts = m + 1;
    assert(p.len() == nl + 1 + so + dl + 1 + tok.len());
    assert forall|i: int| 0 <= i < nl implies p[i] == name[i] by {}
    assert(p[nl] == 58);
    assert forall|j: int| 0 <= j < dl implies p[vs + j] == digits[j] by {}
    assert(p[m] == 124);
    assert forall|j: int| 0 <= j < tok.len() implies p[ts + j] == tok[j] by {}
    // the name run ends exactly at the colon
    assert forall|j: int| 0 <= j < nl implies (name_pred())(p[j]) by {
        assert(is_name_byte(name[j]));
    }
    assert(!(name_pred())(p[nl]));
    lemma_run_end_is(p, 0, nl, name_pred());
    // the sign token, if any
    if sign is Some {
        assert(p[nl + 1] == sg[0]);
    } else {
        assert(p[nl + 1] == digits[0]);
        assert(is_digit(digits[0]));
    }
    // the digit run ends exactly at the pipe
    assert forall|j: int| vs <= j < m implies (digit_pred())(p[j]) by {
        assert(p[j] == digits[j - vs]);
        assert(is_digit(digits[j - vs]));
    }
    assert(!(digit_pred())(p[m]));
    lemma_run_end_is(p, vs, m, digit_pred());
    assert forall|j: int| vs <= j < m implies (num_pred())(p[j]) by {
        assert(is_digit(digits[j - vs]));
    }
    assert(!(num_pred())(p[m]));
    lemma_run_end_is(p, vs, m, num_pred());
    // the number literal is the digit run alone
    assert(p.subrange(vs, m) =~= digits);
    lemma_frac_units_empty();
    assert(number_value(p, vs) == Some(digits_val(digits) * 1_000_000 + 0));
    // the type token runs to the end of the line
    assert forall|j: int| ts <= j < p.len() implies (word_pred())(p[j]) by {
        assert(p[j] == tok[j - ts]);
        assert(is_word_byte(tok[j - ts]));
    }
    lemma_run_end_is(p, ts, p.len() as int, word_pred());
    assert(p.subrange(ts, p.len() as int) =~= tok);
    // the parsed name is the leading run itself
    assert(p.subrange(0, nl) =~= name);
}

/// For all valid lines of the form `name:value|c`, parsing yields a counter
/// event with that name and that value, and the sample rate is unset.
pub proof fn lemma_parse_counter(name: Seq<u8>, digits: Seq<u8>)
    requires
        name.len() >= 1,
        forall|i: int| 0 <= i < name.len() ==> is_name_byte(#[trigger] name[i]),
        digits.len() >= 1,
        forall|i: int| 0 <= i < digits.len() ==> is_digit(#[trigger] digits[i]),
        digits_val(digits) <= MAX_INT_PART as nat,
    ensures
        parse_spec(name + seq![58u8] + digits + seq![124u8, 99u8]) == Some(
            MetricModel {
                name,
                value: (digits_val(digits) * 1_000_000) as int,
                metric_type: MetricType::Counter,
                sample_rate: None,
            },
        ),
{
    let tok = seq![99u8];
    assert(type_of_token(tok) == Some(MetricType::Counter));
    assert(is_word_byte(99));
    lemma_parse_line(name, None, digits, tok);
    assert(name + seq![58u8] + Seq::<u8>::empty() + digits + seq![124u8] + tok =~= name + seq![
        58u8,
    ] + digits + seq![124u8, 99u8]);
}

/// A leading minus on a value is consumed by the grammar for every metric
/// kind, but it negates the stored value only for gauges, timers and sets:
/// counters are monotonic, so there the sign token is ignored.
pub proof fn lemma_sign_negates_all_but_counters(name: Seq<u8>, digits: Seq<u8>, tok: Seq<u8>)
    requires
        name.len() >= 1,
        forall|i: int| 0 <= i < name.len() ==> is_name_byte(#[trigger] name[i]),
        digits.len() >= 1,
        forall|i: int| 0 <= i < digits.len() ==> is_digit(#[trigger] digits[i]),
        digits_val(digits) <= MAX_INT_PART as nat,
        type_of_token(tok) is Some,
        forall|i: int| 0 <= i < tok.len() ==> is_word_byte(#[trigger] tok[i]),
    ensures
        ({
            let p = name + seq![58u8] + seq![45u8] + digits + seq![124u8] + tok;
            let mt = type_of_token(tok)->Some_0;
            let mag = digits_val(digits) * 1_000_000;
            &&& parse_spec(p) is Some
            &&& parse_spec(p)->Some_0.metric_type == mt
            &&& (mt == MetricType::Counter ==> parse_spec(p)->Some_0.value == mag as int)
            &&& (mt != MetricType::Counter ==> parse_spec(p)->Some_0.value == -(mag as int))
        }),
{
    lemma_parse_line(name, Some(45u8), digits, tok);
}

impl MetricType {
    /// The metric type denoted by a type token, `c`, `g`, `ms` or `s`.
    pub fn from_str(token: &[u8]) -> (r: CapellaResult<MetricType>)
        ensures
            match type_of_token(token@) {
                Some(t) => r == Ok::<MetricType, Error>(t),
                None => r == Err::<MetricType, Error>(Error::Parse),
            },
    {
        if token.len() == 1 {
            let b = token[0];
            if b == 99 {
                proof {
                    assert(token@ =~= seq![99u8]);
                }
                Ok(MetricType::Counter)
            } else if b == 103 {
                proof {
                    assert(token@ =~= seq![103u8]);
                }
                Ok(MetricType::Gauge)
            } else if b == 115 {
                proof {
                    assert(token@ =~= seq![115u8]);
                }
                Ok(MetricType::Unique)
            } else {
                Err(Error::Parse)
            }
        } else if token.len() == 2 && token[0] == 109 && token[1] == 115 {
            proof {
                assert(token@ =~= seq![109u8, 115u8]);
            }
            Ok(MetricType::Timer)
        } else {
            Err(Error::Parse)
        }
    }
}

} // verus!

