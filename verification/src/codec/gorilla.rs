//! Gorilla, from "Gorilla: A Fast, Scalable, In-Memory Time Series Database" (VLDB 2015).
//!
//! Values are XORed against the previous one and only the window of bits that actually
//! changed is stored. This is the baseline every other codec here is measured against.
use vstd::prelude::*;
use vstd::std_specs::bits::{u64_leading_zeros, u64_trailing_zeros};

use crate::bits::{
    lemma_take_bit_prefix, lemma_take_bits_prefix,
    lemma_fitting_mask, lemma_signed_word, lemma_small_powers, lemma_word_facts, lemma_xor_facts,
    bits_of, lemma_significant_window, lemma_starts_with_concat, lemma_take_bits_of,
    lemma_zero_runs, low_mask, padded, starts_with, stream_of, take_bit, take_bits, BitReader,
    BitWriter,
};
use crate::codec::dod::{
    dod_bits, dod_parse, lemma_dod_len, lemma_dod_parse_prefix, lemma_dod_roundtrip,
};
use crate::codec::{
    finish_block, frames, lemma_count_roundtrip, lemma_word_roundtrip, read_count, start_block, Dod,
    TAG_GORILLA,
};
use crate::error::Error;
use crate::Point;

verus! {

/// The paper spends 5 bits on the leading-zero count, so counts above 31 are clamped.
/// The extra zeros then travel inside the significant-bit window, which stays lossless.
pub const MAX_LEADING: u32 = 31;

/// No window has been stored yet.
pub const NO_WINDOW: u32 = u32::MAX;

/// The value coder's state: the previous value, and the leading and trailing zero counts of
/// the stored window.
pub type Window = (u64, u32, u32);

/// The window state at the start of a block whose first value is `first`.
pub open spec fn window_start(first: u64) -> Window {
    (first, NO_WINDOW, 0)
}

/// A reachable state: either no window, or one that leaves at least one significant bit.
pub open spec fn window_wf(st: Window) -> bool {
    st.1 == NO_WINDOW || (st.1 <= MAX_LEADING && st.1 + st.2 <= 63)
}

pub open spec fn clamped_leading(xor: u64) -> int {
    if u64_leading_zeros(xor) < MAX_LEADING {
        u64_leading_zeros(xor)
    } else {
        MAX_LEADING as int
    }
}

/// The previous window can be reused when the new XOR has at least as many zeros at both ends.
pub open spec fn reusable(st: Window, xor: u64) -> bool {
    st.1 != NO_WINDOW && clamped_leading(xor) >= st.1 && u64_trailing_zeros(xor) >= st.2
}

/// The bits that encode `bits` after state `st`: `0` for an unchanged value, `10` and the
/// bits inside the stored window, or `11`, 5 bits of leading zeros, 6 bits of width (64 stored
/// as 0) and the significant bits.
#[verifier::opaque]
pub open spec fn value_bits(st: Window, bits: u64) -> Seq<bool> {
    let xor = st.0 ^ bits;
    if xor == 0 {
        seq![false]
    } else if reusable(st, xor) {
        seq![true, false] + bits_of(xor >> (st.2 as u64), (64 - st.1 - st.2) as nat)
    } else {
        let leading = clamped_leading(xor);
        let trailing = u64_trailing_zeros(xor);
        let width = 64 - leading - trailing;
        seq![true, true] + bits_of(leading as u64, 5) + bits_of((width as u64) & 0x3f, 6)
            + bits_of(xor >> (trailing as u64), width as nat)
    }
}

/// The state after `bits` has been written.
pub open spec fn value_after(st: Window, bits: u64) -> Window {
    let xor = st.0 ^ bits;
    if xor == 0 || reusable(st, xor) {
        (bits, st.1, st.2)
    } else {
        (bits, clamped_leading(xor) as u32, u64_trailing_zeros(xor))
    }
}

/// Reading one value at `pos` after state `st`: the value, the position after it and the
/// new state. A window that does not fit 64 bits, or a reuse before any window, is malformed.
#[verifier::opaque]
pub open spec fn value_parse(s: Seq<bool>, pos: int, st: Window) -> Result<(u64, int, Window), Error> {
    match take_bit(s, pos) {
        Err(e) => Err(e),
        Ok((changed, p1)) => if !changed {
            Ok((st.0, p1, st))
        } else {
            match take_bit(s, p1) {
                Err(e) => Err(e),
                Ok((fresh, p2)) => if fresh {
                    match take_bits(s, p2, 5) {
                        Err(e) => Err(e),
                        Ok((leading, p3)) => match take_bits(s, p3, 6) {
                            Err(e) => Err(e),
                            Ok((stored, p4)) => {
                                let width: int = if stored == 0 { 64 } else { stored as int };
                                if leading + width > 64 {
                                    Err(Error::MalformedBlock)
                                } else {
                                    let trailing = 64 - leading - width;
                                    match take_bits(s, p4, width as nat) {
                                        Err(e) => Err(e),
                                        Ok((x, p5)) => {
                                            let v = st.0 ^ (x << (trailing as u64));
                                            Ok((v, p5, (v, leading as u32, trailing as u32)))
                                        },
                                    }
                                }
                            },
                        },
                    }
                } else if st.1 == NO_WINDOW {
                    Err(Error::MalformedBlock)
                } else {
                    match take_bits(s, p2, (64 - st.1 - st.2) as nat) {
                        Err(e) => Err(e),
                        Ok((x, p3)) => {
                            let v = st.0 ^ (x << (st.2 as u64));
                            Ok((v, p3, (v, st.1, st.2)))
                        },
                    }
                },
            }
        },
    }
}

/// Reading a value from a prefix of a stream gives what the whole stream gives when its bits
/// lie inside the prefix, and runs out of stream otherwise.
pub proof fn lemma_value_parse_prefix(s: Seq<bool>, len: int, pos: int, st: Window)
    requires
        0 <= len <= s.len(),
        0 <= pos <= len,
    ensures
        match value_parse(s, pos, st) {
            Ok((v, p, st2)) => pos <= p <= s.len() && value_parse(s.take(len), pos, st) == if p <= len {
                Ok::<(u64, int, Window), Error>((v, p, st2))
            } else {
                Err::<(u64, int, Window), Error>(Error::UnexpectedEnd)
            },
            Err(_) => true,
        },
{
    broadcast use lemma_take_bits_prefix, lemma_take_bit_prefix;

    reveal(value_parse);
}

/// What a value costs. An unchanged value costs one bit. When a window is stored and the new
/// XOR has at least its leading zeros (counted up to 31) and at least its trailing zeros, the
/// value is `10` followed by exactly the XOR's bits inside the stored window, and the window
/// stays. Otherwise it opens a new window: `11`, 5 bits of leading zeros, 6 bits of width (64
/// written as 0) and the XOR's significant bits.
pub proof fn lemma_value_cost(st: Window, bits: u64)
    requires
        window_wf(st),
    ensures
        ({
            let xor = st.0 ^ bits;
            let lz = u64_leading_zeros(xor) as int;
            let leading = if lz > 31 { 31 } else { lz };
            let tz = u64_trailing_zeros(xor) as int;
            if xor == 0 {
                value_bits(st, bits).len() == 1
            } else if st.1 != NO_WINDOW && leading >= st.1 && tz >= st.2 {
                &&& value_bits(st, bits) == seq![true, false] + bits_of(
                    xor >> (st.2 as u64),
                    (64 - st.1 - st.2) as nat,
                )
                &&& value_bits(st, bits).len() == 66 - st.1 - st.2
                &&& value_after(st, bits) == (bits, st.1, st.2)
            } else {
                &&& value_bits(st, bits) == seq![true, true] + bits_of(leading as u64, 5)
                    + bits_of(((64 - leading - tz) % 64) as u64, 6) + bits_of(
                    xor >> (tz as u64),
                    (64 - leading - tz) as nat,
                )
                &&& value_bits(st, bits).len() == 77 - leading - tz
                &&& value_after(st, bits) == (bits, leading as u32, tz as u32)
            }
        }),
{
    reveal(value_bits);
    let xor = st.0 ^ bits;
    if xor != 0 {
        lemma_zero_runs(xor);
        let lz = u64_leading_zeros(xor) as int;
        let leading = if lz > 31 { 31 } else { lz };
        let width = (64 - leading - u64_trailing_zeros(xor)) as u64;
        assert(1 <= width <= 64);
        assert(width & 0x3f == width % 64) by (bit_vector);
    }
}

/// At most 77 bits per value.
pub proof fn lemma_value_bits_len(st: Window, bits: u64)
    requires
        window_wf(st),
    ensures
        value_bits(st, bits).len() <= 77,
{
    reveal(value_bits);
    let xor = st.0 ^ bits;
    if xor != 0 {
        lemma_zero_runs(xor);
    }
}

/// States reached by writing stay well formed.
pub proof fn lemma_value_after_wf(st: Window, bits: u64)
    requires
        window_wf(st),
    ensures
        window_wf(value_after(st, bits)),
{
    let xor = st.0 ^ bits;
    if xor != 0 {
        lemma_zero_runs(xor);
    }
}

proof fn lemma_sub(s: Seq<bool>, pos: int, a: Seq<bool>, b: Seq<bool>)
    requires
        starts_with(s, pos, a + b),
    ensures
        starts_with(s, pos, a),
        starts_with(s, pos + a.len(), b),
{
    crate::bits::lemma_starts_with_concat(s, pos, a, b);
}

/// Reading back a written value gives it back, with the writer's new state.
pub proof fn lemma_value_roundtrip(s: Seq<bool>, pos: int, st: Window, bits: u64)
    requires
        window_wf(st),
        starts_with(s, pos, value_bits(st, bits)),
    ensures
        value_parse(s, pos, st) == Ok::<(u64, int, Window), Error>(
            (bits, pos + value_bits(st, bits).len(), value_after(st, bits)),
        ),
{
    reveal(value_parse);
    reveal(value_bits);
    let xor = st.0 ^ bits;
    lemma_xor_facts(st.0, bits);
    let seg = value_bits(st, bits);
    if xor == 0 {
        assert(s[pos] == s.subrange(pos, pos + 1)[0]);
        assert(take_bit(s, pos) == Ok::<(bool, int), Error>((false, pos + 1)));
        assert(value_parse(s, pos, st) == Ok::<(u64, int, Window), Error>(
                (bits, pos + value_bits(st, bits).len(), value_after(st, bits))));
    } else {
        lemma_zero_runs(xor);
        assert(s[pos] == s.subrange(pos, pos + seg.len())[0]);
        assert(s[pos + 1] == s.subrange(pos, pos + seg.len())[1]);
        if reusable(st, xor) {
            let body = bits_of(xor >> (st.2 as u64), (64 - st.1 - st.2) as nat);
            lemma_sub(s, pos, seq![true, false], body);
            lemma_significant_window(xor, st.1 as nat, st.2 as nat);
            lemma_take_bits_of(s, pos + 2, xor >> (st.2 as u64), (64 - st.1 - st.2) as nat);
            assert(take_bit(s, pos) == Ok::<(bool, int), Error>((true, pos + 1)));
            assert(take_bit(s, pos + 1) == Ok::<(bool, int), Error>((false, pos + 2)));
            assert(st.0 ^ ((xor >> (st.2 as u64)) << (st.2 as u64)) == bits);
            assert(value_parse(s, pos, st) == Ok::<(u64, int, Window), Error>(
                (bits, pos + value_bits(st, bits).len(), value_after(st, bits))));
        } else {
            let leading = clamped_leading(xor);
            let trailing = u64_trailing_zeros(xor);
            let width = 64 - leading - trailing;
            let a = seq![true, true];
            let b = bits_of(leading as u64, 5);
            let c = bits_of((width as u64) & 0x3f, 6);
            let d = bits_of(xor >> (trailing as u64), width as nat);
            assert(seg == ((a + b) + c) + d);
            lemma_sub(s, pos, (a + b) + c, d);
            lemma_sub(s, pos, a + b, c);
            lemma_sub(s, pos, a, b);
            lemma_take_bits_of(s, pos + 2, leading as u64, 5);
            lemma_take_bits_of(s, pos + 7, (width as u64) & 0x3f, 6);
            lemma_significant_window(xor, leading as nat, trailing as nat);
            lemma_take_bits_of(s, pos + 13, xor >> (trailing as u64), width as nat);
            let lu = leading as u64;
            let wu = width as u64;
            lemma_small_powers();
            lemma_fitting_mask(lu, 5);
            lemma_word_facts(wu);
            lemma_fitting_mask(wu & 0x3f, 6);
            assert(take_bit(s, pos) == Ok::<(bool, int), Error>((true, pos + 1)));
            assert(take_bit(s, pos + 1) == Ok::<(bool, int), Error>((true, pos + 2)));
            assert(take_bits(s, pos + 2, 5) == Ok::<(u64, int), Error>((leading as u64, pos + 7)));
            assert(take_bits(s, pos + 7, 6) == Ok::<(u64, int), Error>(((width as u64) & 0x3f, pos + 13)));
            assert(st.0 ^ ((xor >> (trailing as u64)) << (trailing as u64)) == bits);
            assert(value_parse(s, pos, st) == Ok::<(u64, int, Window), Error>(
                (bits, pos + value_bits(st, bits).len(), value_after(st, bits))));
        }
    }
}

pub struct XorWriter {
    prev: u64,
    leading: u32,
    trailing: u32,
}

impl View for XorWriter {
    type V = Window;

    closed spec fn view(&self) -> Window {
        (self.prev, self.leading, self.trailing)
    }
}

impl XorWriter {
    pub fn new(first: u64) -> (x: Self)
        ensures
            x@ == window_start(first),
    {
        XorWriter { prev: first, leading: NO_WINDOW, trailing: 0 }
    }

    pub fn write(&mut self, w: &mut BitWriter, bits: u64)
        requires
            window_wf(old(self)@),
            old(w).wf(),
            old(w)@.len() + 85 < usize::MAX,
        ensures
            final(w).wf(),
            final(w)@ == old(w)@ + value_bits(old(self)@, bits),
            final(self)@ == value_after(old(self)@, bits),
    {
        proof {
            reveal(value_bits);
        }
        let xor = self.prev ^ bits;
        self.prev = bits;
        if xor == 0 {
            w.write_bit(false);
            assert(w@ =~= old(w)@ + value_bits(old(self)@, bits));
            return;
        }
        w.write_bit(true);
        proof {
            lemma_zero_runs(xor);
        }
        let lz = xor.leading_zeros();
        let leading = if lz < MAX_LEADING {
            lz
        } else {
            MAX_LEADING
        };
        let trailing = xor.trailing_zeros();
        let reusable = self.leading != NO_WINDOW && leading >= self.leading && trailing
            >= self.trailing;
        if reusable {
            w.write_bit(false);
            w.write_bits(xor >> self.trailing, 64 - self.leading - self.trailing);
            assert(w@ =~= old(w)@ + value_bits(old(self)@, bits));
        } else {
            w.write_bit(true);
            w.write_bits(leading as u64, 5);
            let width = 64 - leading - trailing;
            // The width field is 6 bits wide but the range is 1..=64, so a full 64-bit window
            // is stored as 0. Width can never actually be zero here because xor != 0.
            w.write_bits((width as u64) & 0x3F, 6);
            w.write_bits(xor >> trailing, width);
            assert(w@ =~= old(w)@ + value_bits(old(self)@, bits));
            self.leading = leading;
            self.trailing = trailing;
        }
    }
}

pub struct XorReader {
    prev: u64,
    leading: u32,
    trailing: u32,
}

impl View for XorReader {
    type V = Window;

    closed spec fn view(&self) -> Window {
        (self.prev, self.leading, self.trailing)
    }
}

impl XorReader {
    pub fn new(first: u64) -> (x: Self)
        ensures
            x@ == window_start(first),
    {
        XorReader { prev: first, leading: NO_WINDOW, trailing: 0 }
    }

    pub fn read(&mut self, r: &mut BitReader) -> (res: Result<u64, Error>)
        requires
            window_wf(old(self)@),
            old(r).wf(),
        ensures
            final(r).wf(),
            final(r).stream() == old(r).stream(),
            match value_parse(old(r).stream(), old(r).pos(), old(self)@) {
                Ok((v, next, st)) => {
                    &&& res == Ok::<u64, Error>(v)
                    &&& final(self)@ == st
                    &&& window_wf(st)
                    &&& final(r).pos() == next
                },
                Err(e) => res == Err::<u64, Error>(e),
            },
    {
        proof {
            reveal(value_parse);
        }
        if !r.read_bit()? {
            return Ok(self.prev);
        }
        if r.read_bit()? {
            let leading = r.read_bits(5)?;
            let stored = r.read_bits(6)?;
            proof {
                lemma_fitting_mask(leading, 5);
                lemma_small_powers();
                lemma_fitting_mask(stored, 6);
                lemma_small_powers();
            }
            self.leading = leading as u32;
            let stored = stored as u32;
            let width = if stored == 0 {
                64
            } else {
                stored
            };
            if self.leading + width > 64 {
                return Err(Error::MalformedBlock);
            }
            self.trailing = 64 - self.leading - width;
        } else if self.leading == NO_WINDOW {
            return Err(Error::MalformedBlock);
        }
        let width = 64 - self.leading - self.trailing;
        let xor = r.read_bits(width)? << self.trailing;
        self.prev ^= xor;
        Ok(self.prev)
    }
}

/// The writer's states after the points that follow `first`.
pub open spec fn states(first: Point, rest: Seq<Point>) -> (Dod, Window)
    decreases rest.len(),
{
    if rest.len() == 0 {
        (Dod { prev: first.timestamp, delta: 0 }, window_start(first.value))
    } else {
        let (ts, xs) = states(first, rest.drop_last());
        (ts.after(rest.last().timestamp), value_after(xs, rest.last().value))
    }
}

/// The bits for the points that follow `first`: each one's timestamp delta-of-delta, then
/// its value.
pub open spec fn rest_bits(first: Point, rest: Seq<Point>) -> Seq<bool>
    decreases rest.len(),
{
    if rest.len() == 0 {
        Seq::empty()
    } else {
        let (ts, xs) = states(first, rest.drop_last());
        rest_bits(first, rest.drop_last()) + dod_bits(ts.delta_of(rest.last().timestamp))
            + value_bits(xs, rest.last().value)
    }
}

/// A block's bit stream: the 32-bit count, then, if there is a first point, its timestamp and
/// value in 64 bits each and the rest.
pub open spec fn block_bits(points: Seq<Point>) -> Seq<bool> {
    bits_of(points.len() as u64, 32) + if points.len() == 0 {
        Seq::empty()
    } else {
        bits_of(points[0].timestamp as u64, 64) + bits_of(points[0].value, 64) + rest_bits(
            points[0],
            points.drop_first(),
        )
    }
}

/// Reading `k` points after `first`, starting at `pos`: the points so far, the position after
/// them and the reader's states.
pub open spec fn parse_rest(s: Seq<bool>, pos: int, first: Point, k: nat) -> Result<
    (Seq<Point>, int, Dod, Window),
    Error,
>
    decreases k,
{
    if k == 0 {
        Ok((seq![first], pos, Dod { prev: first.timestamp, delta: 0 }, window_start(first.value)))
    } else {
        match parse_rest(s, pos, first, (k - 1) as nat) {
            Err(e) => Err(e),
            Ok((pts, p, ts, xs)) => match dod_parse(s, p) {
                Err(e) => Err(e),
                Ok((d, p2)) => match value_parse(s, p2, xs) {
                    Err(e) => Err(e),
                    Ok((v, p3, xs2)) => Ok(
                        (
                            pts.push(Point { timestamp: ts.advance(d).prev, value: v }),
                            p3,
                            ts.advance(d),
                            xs2,
                        ),
                    ),
                },
            },
        }
    }
}

/// Reading a whole block body.
pub open spec fn block_parse(s: Seq<bool>) -> Result<Seq<Point>, Error> {
    match take_bits(s, 0, 32) {
        Err(e) => Err(e),
        Ok((count, p)) => if count == 0 {
            Ok(Seq::empty())
        } else {
            match take_bits(s, p, 64) {
                Err(e) => Err(e),
                Ok((ts, p2)) => match take_bits(s, p2, 64) {
                    Err(e) => Err(e),
                    Ok((v, p3)) => match parse_rest(
                        s,
                        p3,
                        Point { timestamp: ts as i64, value: v },
                        (count - 1) as nat,
                    ) {
                        Err(e) => Err(e),
                        Ok((pts, _, _, _)) => Ok(pts),
                    },
                },
            }
        },
    }
}

proof fn lemma_states_wf(first: Point, rest: Seq<Point>)
    ensures
        window_wf(states(first, rest).1),
    decreases rest.len(),
{
    if rest.len() > 0 {
        lemma_states_wf(first, rest.drop_last());
        lemma_value_after_wf(states(first, rest.drop_last()).1, rest.last().value);
    }
}

proof fn lemma_parse_rest_err(s: Seq<bool>, pos: int, first: Point, k: nat, k2: nat)
    requires
        k <= k2,
        parse_rest(s, pos, first, k) is Err,
    ensures
        parse_rest(s, pos, first, k2) == parse_rest(s, pos, first, k),
    decreases k2,
{
    if k2 > k {
        lemma_parse_rest_err(s, pos, first, k, (k2 - 1) as nat);
    }
}

proof fn lemma_parse_rest_roundtrip(s: Seq<bool>, pos: int, first: Point, rest: Seq<Point>)
    requires
        starts_with(s, pos, rest_bits(first, rest)),
    ensures
        parse_rest(s, pos, first, rest.len()) == Ok::<(Seq<Point>, int, Dod, Window), Error>(
            (
                seq![first] + rest,
                pos + rest_bits(first, rest).len(),
                states(first, rest).0,
                states(first, rest).1,
            ),
        ),
    decreases rest.len(),
{
    if rest.len() == 0 {
        assert(seq![first] + rest =~= seq![first]);
    } else {
        let init = rest.drop_last();
        let last = rest.last();
        let (ts, xs) = states(first, init);
        let a = rest_bits(first, init);
        let b = dod_bits(ts.delta_of(last.timestamp));
        let c = value_bits(xs, last.value);
        assert(rest_bits(first, rest) == (a + b) + c);
        lemma_starts_with_concat(s, pos, a + b, c);
        lemma_starts_with_concat(s, pos, a, b);
        lemma_parse_rest_roundtrip(s, pos, first, init);
        assert(init.len() == (rest.len() - 1) as nat);
        lemma_dod_roundtrip(s, pos + a.len(), ts.delta_of(last.timestamp));
        ts.lemma_advance_after(last.timestamp);
        lemma_states_wf(first, init);
        lemma_value_roundtrip(s, pos + a.len() + b.len(), xs, last.value);
        assert((seq![first] + init).push(Point { timestamp: last.timestamp, value: last.value })
            =~= seq![first] + rest);
    }
}

/// Reading points from a prefix of a stream gives what the whole stream gives when their bits
/// lie inside the prefix, and runs out of stream otherwise.
proof fn lemma_parse_rest_prefix(s: Seq<bool>, len: int, pos: int, first: Point, k: nat)
    requires
        0 <= len <= s.len(),
        0 <= pos <= len,
    ensures
        match parse_rest(s, pos, first, k) {
            Ok((pts, p, ts, xs)) => pos <= p <= s.len() && parse_rest(s.take(len), pos, first, k)
                == if p <= len {
                Ok::<(Seq<Point>, int, Dod, Window), Error>((pts, p, ts, xs))
            } else {
                Err::<(Seq<Point>, int, Dod, Window), Error>(Error::UnexpectedEnd)
            },
            Err(_) => true,
        },
    decreases k,
{
    if k > 0 {
        lemma_parse_rest_prefix(s, len, pos, first, (k - 1) as nat);
        match parse_rest(s, pos, first, (k - 1) as nat) {
            Ok((pts, p, ts, xs)) => {
                let l2 = if p <= len { len } else { s.len() as int };
                lemma_dod_parse_prefix(s, l2, p);
                match dod_parse(s, p) {
                    Ok((d, p2)) => {
                        let l3 = if p2 <= len { len } else { s.len() as int };
                        lemma_value_parse_prefix(s, l3, p2, xs);
                    },
                    Err(_) => {},
                }
            },
            Err(_) => {},
        }
    }
}

/// A block body cut short of its last bit does not decode: it runs out of stream.
pub proof fn lemma_block_prefix(points: Seq<Point>, len: int)
    requires
        points.len() <= u32::MAX,
        0 <= len < block_bits(points).len(),
    ensures
        block_parse(padded(block_bits(points)).take(len)) == Err::<Seq<Point>, Error>(
            Error::UnexpectedEnd,
        ),
{
    broadcast use lemma_take_bits_prefix;

    let s = padded(block_bits(points));
    let head = bits_of(points.len() as u64, 32);
    let tail = if points.len() == 0 {
        Seq::empty()
    } else {
        bits_of(points[0].timestamp as u64, 64) + bits_of(points[0].value, 64) + rest_bits(
            points[0],
            points.drop_first(),
        )
    };
    assert(s.subrange(0, block_bits(points).len() as int) =~= block_bits(points));
    lemma_starts_with_concat(s, 0, head, tail);
    lemma_count_roundtrip(s, 0, points.len() as u64);
    if points.len() > 0 {
        let first = points[0];
        let a = bits_of(first.timestamp as u64, 64);
        let b = bits_of(first.value, 64);
        let c = rest_bits(first, points.drop_first());
        lemma_starts_with_concat(s, 32, a + b, c);
        lemma_starts_with_concat(s, 32, a, b);
        lemma_word_roundtrip(s, 32, first.timestamp as u64);
        lemma_word_roundtrip(s, 96, first.value);
        lemma_signed_word(first.timestamp);
        if len >= 160 {
            lemma_parse_rest_roundtrip(s, 160, first, points.drop_first());
            lemma_parse_rest_prefix(s, len, 160, first, points.drop_first().len());
        }
    }
}

/// What a Gorilla block's body encodes, it decodes back to.
pub proof fn lemma_block_roundtrip(points: Seq<Point>)
    requires
        points.len() <= u32::MAX,
    ensures
        block_parse(padded(block_bits(points))) == Ok::<Seq<Point>, Error>(points),
{
    let s = padded(block_bits(points));
    let head = bits_of(points.len() as u64, 32);
    let tail = if points.len() == 0 {
        Seq::empty()
    } else {
        bits_of(points[0].timestamp as u64, 64) + bits_of(points[0].value, 64) + rest_bits(
            points[0],
            points.drop_first(),
        )
    };
    assert(s.subrange(0, block_bits(points).len() as int) =~= block_bits(points));
    lemma_starts_with_concat(s, 0, head, tail);
    lemma_count_roundtrip(s, 0, points.len() as u64);
    if points.len() == 0 {
        assert(points =~= Seq::<Point>::empty());
    } else {
        let first = points[0];
        let a = bits_of(first.timestamp as u64, 64);
        let b = bits_of(first.value, 64);
        let c = rest_bits(first, points.drop_first());
        lemma_starts_with_concat(s, 32, a + b, c);
        lemma_starts_with_concat(s, 32, a, b);
        lemma_word_roundtrip(s, 32, first.timestamp as u64);
        lemma_word_roundtrip(s, 96, first.value);
        lemma_signed_word(first.timestamp);
        lemma_parse_rest_roundtrip(s, 160, first, points.drop_first());
        assert(seq![first] + points.drop_first() =~= points);
    }
}

pub struct Gorilla;

impl Gorilla {
    pub fn name(&self) -> (n: &'static str)
        ensures
            n@ == "gorilla"@,
    {
        "gorilla"
    }

    pub fn encode(&self, points: &[Point]) -> (res: Result<Vec<u8>, Error>)
        requires
            points@.len() <= usize::MAX / 256,
        ensures
            points@.len() > u32::MAX ==> res == Err::<Vec<u8>, Error>(
                Error::TooManyPoints(points@.len() as usize),
            ),
            points@.len() <= u32::MAX ==> (res matches Ok(block) && frames(
                block@,
                TAG_GORILLA,
                block_bits(points@),
            )),
    {
        let (head, mut w) = start_block(TAG_GORILLA, points)?;
        let ghost start = w@;
        if points.len() > 0 {
            let first = points[0];
            w.write_bits(first.timestamp as u64, 64);
            w.write_bits(first.value, 64);
            let mut timestamps = Dod::new(first.timestamp);
            let mut values = XorWriter::new(first.value);
            let mut i: usize = 1;
            assert(points@.subrange(1, 1) =~= Seq::<Point>::empty());
            while i < points.len()
                invariant
                    1 <= i <= points@.len() <= usize::MAX / 256,
                    first == points@[0],
                    w.wf(),
                    w@ == start + bits_of(first.timestamp as u64, 64) + bits_of(first.value, 64)
                        + rest_bits(first, points@.subrange(1, i as int)),
                    start.len() == 32,
                    w@.len() <= 160 + 149 * (i - 1),
                    (timestamps, values@) == states(first, points@.subrange(1, i as int)),
                    window_wf(values@),
                decreases points@.len() - i,
            {
                let ghost sub = points@.subrange(1, i as int);
                proof {
                    lemma_dod_len(timestamps.delta_of(points@[i as int].timestamp));
                    lemma_value_bits_len(values@, points@[i as int].value);
                    lemma_value_after_wf(values@, points@[i as int].value);
                    assert(points@.subrange(1, i + 1).drop_last() =~= sub);
                }
                timestamps.write(&mut w, points[i].timestamp);
                values.write(&mut w, points[i].value);
                i += 1;
            }
            assert(points@.subrange(1, points@.len() as int) =~= points@.drop_first());
        }
        assert(w@ =~= block_bits(points@));
        let block = finish_block(head, w);
        assert(block@[0] == block@.subrange(0, 1)[0]);
        Ok(block)
    }
}

/// Decodes a Gorilla block body, the bytes after the tag.
pub fn decode(body: &[u8]) -> (res: Result<Vec<Point>, Error>)
    requires
        8 * body@.len() <= usize::MAX,
    ensures
        match block_parse(stream_of(body@)) {
            Ok(points) => res matches Ok(v) && v@ == points,
            Err(e) => res == Err::<Vec<Point>, Error>(e),
        },
{
    let mut r = BitReader::new(body);
    let ghost s = stream_of(body@);
    let count = read_count(&mut r)?;
    let mut points = Vec::with_capacity(crate::codec::capacity_for(count, body.len()));
    if count == 0 {
        return Ok(points);
    }
    let timestamp = r.read_bits(64)? as i64;
    let bits = r.read_bits(64)?;
    points.push(Point::new(timestamp, bits));
    let ghost first = Point { timestamp, value: bits };
    let ghost p0 = r.pos();
    let mut timestamps = Dod::new(timestamp);
    let mut values = XorReader::new(bits);
    let mut i: usize = 1;
    assert(points@ =~= seq![first]);
    while i < count
        invariant
            1 <= i <= count,
            r.wf(),
            r.stream() == s,
            s == stream_of(body@),
            block_parse(s) == match parse_rest(s, p0, first, (count - 1) as nat) {
                Err(e) => Err(e),
                Ok((pts, _, _, _)) => Ok::<Seq<Point>, Error>(pts),
            },
            parse_rest(s, p0, first, (i - 1) as nat) == Ok::<(Seq<Point>, int, Dod, Window), Error>(
                (points@, r.pos(), timestamps, values@),
            ),
            window_wf(values@),
        decreases count - i,
    {
        let ghost k = (i - 1) as nat;
        let ghost pos_before = r.pos();
        let ghost ts_before = timestamps;
        let ghost xs_before = values@;
        let ghost pts_before = points@;
        let timestamp = match timestamps.read(&mut r) {
            Ok(t) => t,
            Err(e) => {
                proof {
                    assert(parse_rest(s, p0, first, k + 1) == Err::<(Seq<Point>, int, Dod, Window), Error>(e));
                    lemma_parse_rest_err(s, p0, first, k + 1, (count - 1) as nat);
                }
                return Err(e);
            },
        };
        let ghost pos_mid = r.pos();
        let bits = match values.read(&mut r) {
            Ok(b) => b,
            Err(e) => {
                proof {
                    assert(dod_parse(s, pos_before) matches Ok((_, p)) && p == pos_mid);
                    assert(parse_rest(s, p0, first, k + 1) == Err::<(Seq<Point>, int, Dod, Window), Error>(e));
                    lemma_parse_rest_err(s, p0, first, k + 1, (count - 1) as nat);
                }
                return Err(e);
            },
        };
        points.push(Point::new(timestamp, bits));
        i += 1;
    }
    Ok(points)
}

} // verus!
