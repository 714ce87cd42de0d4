use vstd::prelude::*;
use vstd::arithmetic::div_mod::{lemma_div_is_ordered, lemma_div_by_multiple};

use crate::speed_daemon::wire::{be32_at, be32_bytes, push_u32_be, read_u32_be};

verus! {

/// Every message is this many bytes long: a type byte and two big-endian `i32`s.
pub const MESSAGE_LEN: usize = 9;

/// A client message.
#[derive(Clone, Copy, Debug, PartialEq, Eq, Structural)]
pub enum Request {
    /// Type `I`: the asset's price at a timestamp.
    Insert { timestamp: i32, price: i32 },
    /// Any other type: the mean price between two timestamps, both included.
    Query { mintime: i32, maxtime: i32 },
}

/// The two's-complement value of four big-endian bytes at `at`.
pub open spec fn be_i32_at(s: Seq<u8>, at: int) -> int {
    let u = be32_at(s, at);
    if u >= 0x8000_0000 {
        u - 0x1_0000_0000
    } else {
        u
    }
}

/// The four big-endian two's-complement bytes of `v`.
pub open spec fn i32_bytes(v: i32) -> Seq<u8> {
    be32_bytes((if v < 0 {
        v + 0x1_0000_0000
    } else {
        v as int
    }) as u32)
}

/// The request that a 9-byte message carries.
pub open spec fn spec_decode(s: Seq<u8>) -> Request {
    let a = be_i32_at(s, 1) as i32;
    let b = be_i32_at(s, 5) as i32;
    if s[0] == 0x49 {
        Request::Insert { timestamp: a, price: b }
    } else {
        Request::Query { mintime: a, maxtime: b }
    }
}

/// Reads a big-endian two's-complement `i32` at `at`.
fn read_i32_be(buf: &[u8], at: usize) -> (v: i32)
    requires
        at + 4 <= buf@.len(),
    ensures
        v == be_i32_at(buf@, at as int),
{
    let u = read_u32_be(buf, at);
    if u >= 0x8000_0000 {
        ((u - 0x8000_0000) as i32) - 0x7fff_ffff - 1
    } else {
        u as i32
    }
}

/// Appends the big-endian two's-complement bytes of `v`.
fn push_i32_be(out: &mut Vec<u8>, v: i32)
    ensures
        final(out)@ == old(out)@ + i32_bytes(v),
{
    let u: u32 = if v < 0 {
        ((v as i64) + 0x1_0000_0000) as u32
    } else {
        v as u32
    };
    push_u32_be(out, u);
}

/// Decodes one message.
pub fn decode_request(message: &[u8; 9]) -> (r: Request)
    ensures
        r == spec_decode(message@),
{
    let buf: &[u8] = message.as_slice();
    let a = read_i32_be(buf, 1);
    let b = read_i32_be(buf, 5);
    if buf[0] == 0x49 {
        Request::Insert { timestamp: a, price: b }
    } else {
        Request::Query { mintime: a, maxtime: b }
    }
}

/// Encodes the answer to a query.
pub fn encode_mean(mean: i32) -> (out: Vec<u8>)
    ensures
        out@ == i32_bytes(mean),
{
    let mut out: Vec<u8> = Vec::new();
    push_i32_be(&mut out, mean);
    out
}

/// Law: the four bytes written for an `i32` read back as that `i32`.
pub proof fn lemma_i32_roundtrip(v: i32)
    ensures
        be_i32_at(i32_bytes(v), 0) == v,
{
    let u = (if v < 0 {
        v + 0x1_0000_0000
    } else {
        v as int
    }) as u32;
    crate::speed_daemon::wire::lemma_be32_roundtrip(u);
}

/// The entry `e` (timestamp, price) lies in the window `lo..=hi`.
pub open spec fn in_window(e: (i32, i32), lo: i32, hi: i32) -> bool {
    lo <= e.0 <= hi
}

/// The sum of the prices of the entries in the window.
pub open spec fn window_sum(s: Seq<(i32, i32)>, lo: i32, hi: i32) -> int
    decreases s.len(),
{
    if s.len() == 0 {
        0
    } else {
        window_sum(s.drop_last(), lo, hi) + if in_window(s.last(), lo, hi) {
            s.last().1 as int
        } else {
            0
        }
    }
}

/// The number of entries in the window.
pub open spec fn window_count(s: Seq<(i32, i32)>, lo: i32, hi: i32) -> int
    decreases s.len(),
{
    if s.len() == 0 {
        0
    } else {
        window_count(s.drop_last(), lo, hi) + if in_window(s.last(), lo, hi) {
            1int
        } else {
            0
        }
    }
}

/// Integer division rounding toward zero, as Rust's `/` does.
pub open spec fn div_toward_zero(a: int, b: int) -> int {
    if a >= 0 {
        a / b
    } else {
        -((-a) / b)
    }
}

/// The mean price in the window, rounded toward zero; 0 when no entry is in it.
pub open spec fn spec_mean(s: Seq<(i32, i32)>, lo: i32, hi: i32) -> int {
    if window_count(s, lo, hi) == 0 {
        0
    } else {
        div_toward_zero(window_sum(s, lo, hi), window_count(s, lo, hi))
    }
}

/// Every price in the window lies in `min..=max`.
pub open spec fn window_prices_within(s: Seq<(i32, i32)>, lo: i32, hi: i32, min: int, max: int) -> bool {
    forall|i: int| 0 <= i < s.len() && in_window(#[trigger] s[i], lo, hi) ==> min <= s[i].1 <= max
}

proof fn lemma_window_bounds(s: Seq<(i32, i32)>, lo: i32, hi: i32, min: int, max: int)
    requires
        window_prices_within(s, lo, hi, min, max),
    ensures
        0 <= window_count(s, lo, hi) <= s.len(),
        min * window_count(s, lo, hi) <= window_sum(s, lo, hi) <= max * window_count(s, lo, hi),
    decreases s.len(),
{
    if s.len() > 0 {
        let t = s.drop_last();
        assert forall|i: int| 0 <= i < t.len() && in_window(#[trigger] t[i], lo, hi) implies min <= t[i].1 <= max by {
            assert(t[i] == s[i]);
        }
        lemma_window_bounds(t, lo, hi, min, max);
        let c = window_count(t, lo, hi);
        if in_window(s.last(), lo, hi) {
            assert(s.last() == s[s.len() - 1]);
            assert(min * (c + 1) == min * c + min) by (nonlinear_arith);
            assert(max * (c + 1) == max * c + max) by (nonlinear_arith);
        }
    }
}

proof fn lemma_div_toward_zero_bounds(a: int, c: int, min: int, max: int)
    requires
        c > 0,
        min * c <= a <= max * c,
    ensures
        min <= div_toward_zero(a, c) <= max,
{
    if a >= 0 {
        if max >= 0 {
            lemma_div_is_ordered(a, max * c, c);
            lemma_div_by_multiple(max, c);
        } else {
            assert(max * c < 0) by (nonlinear_arith)
                requires max < 0, c > 0;
        }
        if min > 0 {
            lemma_div_is_ordered(min * c, a, c);
            lemma_div_by_multiple(min, c);
        } else {
            lemma_div_is_ordered(0, a, c);
        }
    } else {
        assert(-a <= (-min) * c) by (nonlinear_arith)
            requires min * c <= a;
        if -min >= 0 {
            lemma_div_is_ordered(-a, (-min) * c, c);
            lemma_div_by_multiple(-min, c);
        } else {
            assert((-min) * c < 0) by (nonlinear_arith)
                requires -min < 0, c > 0;
        }
        if max < 0 {
            assert((-max) * c <= -a) by (nonlinear_arith)
                requires a <= max * c;
            lemma_div_is_ordered((-max) * c, -a, c);
            lemma_div_by_multiple(-max, c);
        } else {
            lemma_div_is_ordered(0, -a, c);
        }
    }
}

/// Law: the mean of a non-empty window lies between the smallest and the largest
/// price in it (stated for any bounds on those prices).
pub proof fn lemma_mean_within_prices(s: Seq<(i32, i32)>, lo: i32, hi: i32, min: int, max: int)
    requires
        window_prices_within(s, lo, hi, min, max),
        window_count(s, lo, hi) > 0,
    ensures
        min <= spec_mean(s, lo, hi) <= max,
{
    lemma_window_bounds(s, lo, hi, min, max);
    lemma_div_toward_zero_bounds(window_sum(s, lo, hi), window_count(s, lo, hi), min, max);
}

/// The prices that one client has inserted, in the order of insertion.
pub struct PriceLog {
    entries: Vec<(i32, i32)>,
}

impl View for PriceLog {
    type V = Seq<(i32, i32)>;

    closed spec fn view(&self) -> Seq<(i32, i32)> {
        self.entries@
    }
}

/// The new log and the reply for one request.
pub open spec fn spec_handle(log: Seq<(i32, i32)>, r: Request) -> (Seq<(i32, i32)>, Option<Seq<u8>>) {
    match r {
        Request::Insert { timestamp, price } => (log.push((timestamp, price)), None),
        Request::Query { mintime, maxtime } => (
            log,
            Some(i32_bytes(spec_mean(log, mintime, maxtime) as i32)),
        ),
    }
}

impl PriceLog {
    /// An empty log.
    pub fn new() -> (r: PriceLog)
        ensures
            r@ == Seq::<(i32, i32)>::empty(),
    {
        PriceLog { entries: Vec::new() }
    }

    /// Records the price at a timestamp.
    pub fn insert(&mut self, timestamp: i32, price: i32)
        ensures
            final(self)@ == old(self)@.push((timestamp, price)),
    {
        self.entries.push((timestamp, price));
    }

    /// The mean of the prices with timestamps from `mintime` to `maxtime`, both
    /// included, rounded toward zero; 0 when there are none.
    pub fn mean(&self, mintime: i32, maxtime: i32) -> (m: i32)
        ensures
            m == spec_mean(self@, mintime, maxtime),
    {
        let ghost s = self.entries@;
        let n = self.entries.len();
        let mut sum: i128 = 0;
        let mut count: u64 = 0;
        for i in 0..n
            invariant
                n == s.len(),
                s == self.entries@,
                sum == window_sum(s.take(i as int), mintime, maxtime),
                count == window_count(s.take(i as int), mintime, maxtime),
                count <= i,
                -0x8000_0000 * count <= sum <= 0x7fff_ffff * count,
        {
            let (t, p) = self.entries[i];
            assert(s.take(i + 1).drop_last() =~= s.take(i as int));
            assert(s.take(i + 1).last() == s[i as int]);
            if mintime <= t && t <= maxtime {
                sum = sum + p as i128;
                count = count + 1;
            }
        }
        assert(s.take(n as int) =~= s);
        if count == 0 {
            return 0;
        }
        let c = count as i128;
        let m: i128 = if sum >= 0 {
            sum / c
        } else {
            -((-sum) / c)
        };
        proof {
            assert forall|i: int| 0 <= i < s.len() && in_window(#[trigger] s[i], mintime, maxtime) implies -0x8000_0000 <= s[i].1 <= 0x7fff_ffff by {}
            lemma_mean_within_prices(s, mintime, maxtime, -0x8000_0000, 0x7fff_ffff);
        }
        m as i32
    }

    /// Handles one message: an insert is recorded and has no reply; anything else is a
    /// query, answered with the mean as four big-endian bytes.
    pub fn handle(&mut self, message: &[u8; 9]) -> (reply: Option<Vec<u8>>)
        ensures
            (final(self)@, match reply {
                Some(v) => Some(v@),
                None => None,
            }) == spec_handle(old(self)@, spec_decode(message@)),
    {
        match decode_request(message) {
            Request::Insert { timestamp, price } => {
                self.insert(timestamp, price);
                None
            },
            Request::Query { mintime, maxtime } => {
                let m = self.mean(mintime, maxtime);
                Some(encode_mean(m))
            },
        }
    }
}

} // verus!
