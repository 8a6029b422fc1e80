//! Chimp, from "Chimp: Efficient Lossless Floating Point Compression for Time Series
//! Databases" (VLDB 2022). For the windowed variant see [`super::chimp128`].
use vstd::prelude::*;
use vstd::std_specs::bits::{u64_leading_zeros, u64_trailing_zeros};

use crate::bits::{
    lemma_take_bits_prefix,
    lemma_fitting_mask, lemma_signed_word, lemma_small_powers, lemma_word_facts, lemma_xor_facts,
    bits_of, lemma_significant_window, lemma_starts_with_concat, lemma_take_bits_of,
    lemma_zero_runs, low_mask, padded, starts_with, stream_of, take_bits, BitReader, BitWriter,
};
use crate::codec::dod::{
    dod_bits, dod_parse, lemma_dod_len, lemma_dod_parse_prefix, lemma_dod_roundtrip,
};
use crate::codec::{
    finish_block, frames, lemma_count_roundtrip, lemma_word_roundtrip, read_count, start_block, Dod,
    TAG_CHIMP,
};
use crate::error::Error;
use crate::Point;

verus! {

/// Leading-zero counts are rounded down into eight buckets addressed by a 3-bit index.
pub open spec fn round_of(index: int) -> u32 {
    if index == 0 {
        0
    } else if index == 1 {
        8
    } else if index == 2 {
        12
    } else if index == 3 {
        16
    } else if index == 4 {
        18
    } else if index == 5 {
        20
    } else if index == 6 {
        22
    } else {
        24
    }
}

/// The bucket a leading-zero count rounds down into.
pub open spec fn index_of(leading: int) -> u32 {
    if leading < 8 {
        0
    } else if leading < 12 {
        1
    } else if leading < 16 {
        2
    } else if leading < 18 {
        3
    } else if leading < 20 {
        4
    } else if leading < 22 {
        5
    } else if leading < 24 {
        6
    } else {
        7
    }
}

/// The rounded count for bucket `index` (0 to 7).
pub fn leading_round(index: usize) -> (r: u32)
    requires
        index < 8,
    ensures
        r == round_of(index as int),
{
    if index == 0 {
        0
    } else if index == 1 {
        8
    } else if index == 2 {
        12
    } else if index == 3 {
        16
    } else if index == 4 {
        18
    } else if index == 5 {
        20
    } else if index == 6 {
        22
    } else {
        24
    }
}

/// The bucket of a leading-zero count (0 to 63). Rounding down never overstates the zeros,
/// so no significant bit is ever lost, and the count stays below the next bucket.
pub fn leading_index(leading: u32) -> (i: u8)
    requires
        leading < 64,
    ensures
        i == index_of(leading as int),
        i < 8,
        round_of(i as int) <= leading,
        i < 7 ==> leading < round_of(i + 1),
{
    if leading < 8 {
        0
    } else if leading < 12 {
        1
    } else if leading < 16 {
        2
    } else if leading < 18 {
        3
    } else if leading < 20 {
        4
    } else if leading < 22 {
        5
    } else if leading < 24 {
        6
    } else {
        7
    }
}

/// An explicit trailing-zero count costs 9 extra bits, so it only pays off beyond this many.
pub const TRAILING_THRESHOLD: u32 = 6;

/// No leading bucket can be reused.
pub const NO_WINDOW: u32 = u32::MAX;

/// The value coder's state: the previous value and the leading count a `10` would reuse.
pub type Window = (u64, u32);

pub open spec fn window_start(first: u64) -> Window {
    (first, NO_WINDOW)
}

pub open spec fn window_wf(st: Window) -> bool {
    st.1 == NO_WINDOW || st.1 <= 24
}

/// The bits that encode `bits` after state `st`: `00` for an unchanged value; `01`, the
/// bucket, a 6-bit width and the significant bits when there are more than six trailing
/// zeros; `10` and the bits below the reused leading count; or `11`, the bucket and the bits
/// below it.
#[verifier::opaque]
pub open spec fn value_bits(st: Window, bits: u64) -> Seq<bool> {
    let xor = st.0 ^ bits;
    if xor == 0 {
        bits_of(0, 2)
    } else {
        let index = index_of(u64_leading_zeros(xor));
        let leading = round_of(index as int);
        let trailing = u64_trailing_zeros(xor);
        if trailing > TRAILING_THRESHOLD {
            let width = 64 - leading - trailing;
            bits_of(1, 2) + bits_of(index as u64, 3) + bits_of(width as u64, 6) + bits_of(
                xor >> (trailing as u64),
                width as nat,
            )
        } else if leading == st.1 {
            bits_of(2, 2) + bits_of(xor, (64 - leading) as nat)
        } else {
            bits_of(3, 2) + bits_of(index as u64, 3) + bits_of(xor, (64 - leading) as nat)
        }
    }
}

pub open spec fn value_after(st: Window, bits: u64) -> Window {
    let xor = st.0 ^ bits;
    if xor == 0 {
        (bits, st.1)
    } else {
        let leading = round_of(index_of(u64_leading_zeros(xor)) as int);
        if u64_trailing_zeros(xor) > TRAILING_THRESHOLD {
            // This window is narrower than a '10' would imply, so it cannot be the reference.
            (bits, NO_WINDOW)
        } else {
            (bits, leading)
        }
    }
}

/// The leading-zero buckets in order: a count is stored as the largest one not above it.
pub open spec fn leading_buckets() -> Seq<u32> {
    seq![0u32, 8, 12, 16, 18, 20, 22, 24]
}

/// What a value costs after state `st`. An unchanged value is `00`. Otherwise let bucket `i`
/// be the largest bucket not above the XOR's leading-zero count, and `r` its count. With more
/// than six trailing zeros the value is `01`, `i`, the width and the significant bits, and no
/// bucket is kept. Otherwise, when the stored bucket is `r`, the value is `10` and the low
/// `64 - r` bits of the XOR; when it is not, `11`, `i` and those bits; and `r` is kept.
pub proof fn lemma_value_cost(st: Window, bits: u64, i: int)
    requires
        window_wf(st),
        0 <= i < 8,
        st.0 ^ bits != 0 ==> leading_buckets()[i] <= u64_leading_zeros(st.0 ^ bits) && (i == 7
            || u64_leading_zeros(st.0 ^ bits) < leading_buckets()[i + 1]),
    ensures
        ({
            let xor = st.0 ^ bits;
            let r = leading_buckets()[i];
            let tz = u64_trailing_zeros(xor);
            if xor == 0 {
                value_bits(st, bits) == bits_of(0, 2) && value_after(st, bits) == (bits, st.1)
            } else if tz > 6 {
                &&& value_bits(st, bits) == bits_of(1, 2) + bits_of(i as u64, 3) + bits_of(
                    (64 - r - tz) as u64,
                    6,
                ) + bits_of(xor >> (tz as u64), (64 - r - tz) as nat)
                &&& value_after(st, bits) == (bits, NO_WINDOW)
            } else if st.1 == r {
                &&& value_bits(st, bits) == bits_of(2, 2) + bits_of(xor, (64 - r) as nat)
                &&& value_after(st, bits) == (bits, r)
            } else {
                &&& value_bits(st, bits) == bits_of(3, 2) + bits_of(i as u64, 3) + bits_of(
                    xor,
                    (64 - r) as nat,
                )
                &&& value_after(st, bits) == (bits, r)
            }
        }),
{
    reveal(value_bits);
    let xor = st.0 ^ bits;
    if xor != 0 {
        lemma_zero_runs(xor);
        let lz = u64_leading_zeros(xor) as int;
        assert(index_of(lz) == i);
        assert(round_of(i) == leading_buckets()[i]);
    }
}

/// Reading one value at `pos` after state `st`. An empty or oversized window, or a reuse
/// with nothing to reuse, is malformed.
#[verifier::opaque]
pub open spec fn value_parse(s: Seq<bool>, pos: int, st: Window) -> Result<(u64, int, Window), Error> {
    match take_bits(s, pos, 2) {
        Err(e) => Err(e),
        Ok((flag, p1)) => if flag == 0 {
            Ok((st.0, p1, st))
        } else if flag == 1 {
            match take_bits(s, p1, 3) {
                Err(e) => Err(e),
                Ok((index, p2)) => match take_bits(s, p2, 6) {
                    Err(e) => Err(e),
                    Ok((width, p3)) => {
                        let leading = round_of(index as int);
                        if width == 0 || leading + width > 64 {
                            Err(Error::MalformedBlock)
                        } else {
                            match take_bits(s, p3, width as nat) {
                                Err(e) => Err(e),
                                Ok((x, p4)) => {
                                    let v = st.0 ^ (x << ((64 - leading - width) as u64));
                                    Ok((v, p4, (v, NO_WINDOW)))
                                },
                            }
                        }
                    },
                },
            }
        } else if flag == 2 {
            if st.1 == NO_WINDOW {
                Err(Error::MalformedBlock)
            } else {
                match take_bits(s, p1, (64 - st.1) as nat) {
                    Err(e) => Err(e),
                    Ok((x, p2)) => Ok((st.0 ^ x, p2, (st.0 ^ x, st.1))),
                }
            }
        } else {
            match take_bits(s, p1, 3) {
                Err(e) => Err(e),
                Ok((index, p2)) => {
                    let leading = round_of(index as int);
                    match take_bits(s, p2, (64 - leading) as nat) {
                        Err(e) => Err(e),
                        Ok((x, p3)) => Ok((st.0 ^ x, p3, (st.0 ^ x, leading))),
                    }
                },
            }
        },
    }
}

proof fn lemma_round_index(lz: int)
    requires
        0 <= lz <= 63,
    ensures
        index_of(lz) < 8,
        round_of(index_of(lz) as int) <= lz,
        round_of(index_of(lz) as int) <= 24,
{
}

pub proof fn lemma_value_bits_len(st: Window, bits: u64)
    requires
        window_wf(st),
    ensures
        value_bits(st, bits).len() <= 77,
{
    reveal(value_bits);
    let xor = st.0 ^ bits;
    if xor != 0 {
        lemma_zero_runs(xor);
        lemma_round_index(u64_leading_zeros(xor));
    }
}

pub proof fn lemma_value_after_wf(st: Window, bits: u64)
    requires
        window_wf(st),
    ensures
        window_wf(value_after(st, bits)),
{
    let xor = st.0 ^ bits;
    if xor != 0 {
        lemma_zero_runs(xor);
        lemma_round_index(u64_leading_zeros(xor));
    }
}

/// Reading back a written value gives it back, with the writer's new state.
pub proof fn lemma_value_roundtrip(s: Seq<bool>, pos: int, st: Window, bits: u64)
    requires
        window_wf(st),
        starts_with(s, pos, value_bits(st, bits)),
    ensures
        value_parse(s, pos, st) == Ok::<(u64, int, Window), Error>(
            (bits, pos + value_bits(st, bits).len(), value_after(st, bits)),
        ),
{
    reveal(value_parse);
    reveal(value_bits);
    let xor = st.0 ^ bits;
    lemma_xor_facts(st.0, bits);
    lemma_small_powers();
    if xor == 0 {
        lemma_take_bits_of(s, pos, 0, 2);
        lemma_fitting_mask(0, 2);
        assert(take_bits(s, pos, 2) == Ok::<(u64, int), Error>((0, pos + 2)));
            assert(value_parse(s, pos, st) == Ok::<(u64, int, Window), Error>(
                (bits, pos + value_bits(st, bits).len(), value_after(st, bits))));
    } else {
        lemma_zero_runs(xor);
        let lz = u64_leading_zeros(xor);
        lemma_round_index(lz);
        let index = index_of(lz);
        let leading = round_of(index as int);
        let trailing = u64_trailing_zeros(xor);
        if trailing > TRAILING_THRESHOLD {
            let width = 64 - leading - trailing;
            let a = bits_of(1, 2);
            let b = bits_of(index as u64, 3);
            let c = bits_of(width as u64, 6);
            let d = bits_of(xor >> (trailing as u64), width as nat);
            lemma_starts_with_concat(s, pos, (a + b) + c, d);
            lemma_starts_with_concat(s, pos, a + b, c);
            lemma_starts_with_concat(s, pos, a, b);
            lemma_take_bits_of(s, pos, 1, 2);
            lemma_fitting_mask(1, 2);
            lemma_take_bits_of(s, pos + 2, index as u64, 3);
            lemma_fitting_mask(index as u64, 3);
            lemma_take_bits_of(s, pos + 5, width as u64, 6);
            lemma_fitting_mask(width as u64, 6);
            lemma_significant_window(xor, leading as nat, trailing as nat);
            lemma_take_bits_of(s, pos + 11, xor >> (trailing as u64), width as nat);
            assert(take_bits(s, pos, 2) == Ok::<(u64, int), Error>((1, pos + 2)));
            assert(take_bits(s, pos + 2, 3) == Ok::<(u64, int), Error>((index as u64, pos + 5)));
            assert(take_bits(s, pos + 5, 6) == Ok::<(u64, int), Error>((width as u64, pos + 11)));
            assert(value_parse(s, pos, st) == Ok::<(u64, int, Window), Error>(
                (bits, pos + value_bits(st, bits).len(), value_after(st, bits))));
        } else if leading == st.1 {
            let a = bits_of(2, 2);
            let b = bits_of(xor, (64 - leading) as nat);
            lemma_starts_with_concat(s, pos, a, b);
            lemma_take_bits_of(s, pos, 2, 2);
            lemma_fitting_mask(2, 2);
            lemma_significant_window(xor, leading as nat, 0);
            lemma_word_facts(xor);
            lemma_take_bits_of(s, pos + 2, xor, (64 - leading) as nat);
            assert(take_bits(s, pos, 2) == Ok::<(u64, int), Error>((2, pos + 2)));
            assert(value_parse(s, pos, st) == Ok::<(u64, int, Window), Error>(
                (bits, pos + value_bits(st, bits).len(), value_after(st, bits))));
        } else {
            let a = bits_of(3, 2);
            let b = bits_of(index as u64, 3);
            let c = bits_of(xor, (64 - leading) as nat);
            lemma_starts_with_concat(s, pos, a + b, c);
            lemma_starts_with_concat(s, pos, a, b);
            lemma_take_bits_of(s, pos, 3, 2);
            lemma_fitting_mask(3, 2);
            lemma_take_bits_of(s, pos + 2, index as u64, 3);
            lemma_fitting_mask(index as u64, 3);
            lemma_significant_window(xor, leading as nat, 0);
            lemma_word_facts(xor);
            lemma_take_bits_of(s, pos + 5, xor, (64 - leading) as nat);
            assert(take_bits(s, pos, 2) == Ok::<(u64, int), Error>((3, pos + 2)));
            assert(value_parse(s, pos, st) == Ok::<(u64, int, Window), Error>(
                (bits, pos + value_bits(st, bits).len(), value_after(st, bits))));
        }
    }
}

pub struct ChimpWriter {
    prev: u64,
    leading: u32,
}

impl View for ChimpWriter {
    type V = Window;

    closed spec fn view(&self) -> Window {
        (self.prev, self.leading)
    }
}

impl ChimpWriter {
    pub fn new(first: u64) -> (x: Self)
        ensures
            x@ == window_start(first),
    {
        ChimpWriter { prev: first, leading: NO_WINDOW }
    }

    pub fn write(&mut self, w: &mut BitWriter, bits: u64)
        requires
            window_wf(old(self)@),
            old(w).wf(),
            old(w)@.len() + 85 < usize::MAX,
        ensures
            final(w).wf(),
            final(w)@ == old(w)@ + value_bits(old(self)@, bits),
            final(self)@ == value_after(old(self)@, bits),
    {
        proof {
            reveal(value_bits);
        }
        let xor = self.prev ^ bits;
        self.prev = bits;
        if xor == 0 {
            w.write_bits(0b00, 2);
            return;
        }
        proof {
            lemma_zero_runs(xor);
            lemma_round_index(u64_leading_zeros(xor));
        }
        let index = leading_index(xor.leading_zeros()) as usize;
        let leading = leading_round(index);
        let trailing = xor.trailing_zeros();

        if trailing > TRAILING_THRESHOLD {
            let width = 64 - leading - trailing;
            w.write_bits(0b01, 2);
            w.write_bits(index as u64, 3);
            w.write_bits(width as u64, 6);
            w.write_bits(xor >> trailing, width);
            assert(w@ =~= old(w)@ + value_bits(old(self)@, bits));
            // This window is narrower than a '10' would imply, so it cannot be the reference.
            self.leading = NO_WINDOW;
        } else if leading == self.leading {
            w.write_bits(0b10, 2);
            w.write_bits(xor, 64 - leading);
        } else {
            w.write_bits(0b11, 2);
            w.write_bits(index as u64, 3);
            w.write_bits(xor, 64 - leading);
            assert(w@ =~= old(w)@ + value_bits(old(self)@, bits));
            self.leading = leading;
        }
    }
}

pub struct ChimpReader {
    prev: u64,
    leading: u32,
}

impl View for ChimpReader {
    type V = Window;

    closed spec fn view(&self) -> Window {
        (self.prev, self.leading)
    }
}

impl ChimpReader {
    pub fn new(first: u64) -> (x: Self)
        ensures
            x@ == window_start(first),
    {
        ChimpReader { prev: first, leading: NO_WINDOW }
    }

    pub fn read(&mut self, r: &mut BitReader) -> (res: Result<u64, Error>)
        requires
            window_wf(old(self)@),
            old(r).wf(),
        ensures
            final(r).wf(),
            final(r).stream() == old(r).stream(),
            match value_parse(old(r).stream(), old(r).pos(), old(self)@) {
                Ok((v, next, st)) => {
                    &&& res == Ok::<u64, Error>(v)
                    &&& final(self)@ == st
                    &&& window_wf(st)
                    &&& final(r).pos() == next
                },
                Err(e) => res == Err::<u64, Error>(e),
            },
    {
        proof {
            reveal(value_parse);
        }
        let flag = r.read_bits(2)?;
        proof {
            lemma_fitting_mask(flag, 2);
                lemma_small_powers();
        }
        let xor = if flag == 0b00 {
            0
        } else if flag == 0b01 {
            let index = r.read_bits(3)?;
            proof {
                lemma_fitting_mask(index, 3);
                lemma_small_powers();
            }
            let leading = leading_round(index as usize);
            let width = r.read_bits(6)?;
            proof {
                lemma_fitting_mask(width, 6);
                lemma_small_powers();
            }
            let width = width as u32;
            if width == 0 || leading + width > 64 {
                return Err(Error::MalformedBlock);
            }
            self.leading = NO_WINDOW;
            r.read_bits(width)? << (64 - leading - width)
        } else if flag == 0b10 {
            if self.leading == NO_WINDOW {
                return Err(Error::MalformedBlock);
            }
            r.read_bits(64 - self.leading)?
        } else {
            let index = r.read_bits(3)?;
            proof {
                lemma_fitting_mask(index, 3);
                lemma_small_powers();
            }
            self.leading = leading_round(index as usize);
            r.read_bits(64 - self.leading)?
        };
        proof {
            let p = self.prev;
            lemma_word_facts(p);
        }
        self.prev ^= xor;
        Ok(self.prev)
    }
}

pub open spec fn states(first: Point, rest: Seq<Point>) -> (Dod, Window)
    decreases rest.len(),
{
    if rest.len() == 0 {
        (Dod { prev: first.timestamp, delta: 0 }, window_start(first.value))
    } else {
        let (ts, xs) = states(first, rest.drop_last());
        (ts.after(rest.last().timestamp), value_after(xs, rest.last().value))
    }
}

/// The bits for the points that follow `first`: each one's timestamp delta-of-delta, then
/// its value.
pub open spec fn rest_bits(first: Point, rest: Seq<Point>) -> Seq<bool>
    decreases rest.len(),
{
    if rest.len() == 0 {
        Seq::empty()
    } else {
        let (ts, xs) = states(first, rest.drop_last());
        rest_bits(first, rest.drop_last()) + dod_bits(ts.delta_of(rest.last().timestamp))
            + value_bits(xs, rest.last().value)
    }
}

/// A block's bit stream: the 32-bit count, then, if there is a first point, its timestamp and
/// value in 64 bits each and the rest.
pub open spec fn block_bits(points: Seq<Point>) -> Seq<bool> {
    bits_of(points.len() as u64, 32) + if points.len() == 0 {
        Seq::empty()
    } else {
        bits_of(points[0].timestamp as u64, 64) + bits_of(points[0].value, 64) + rest_bits(
            points[0],
            points.drop_first(),
        )
    }
}

/// Reading a value from a prefix of a stream gives what the whole stream gives when its bits
/// lie inside the prefix, and runs out of stream otherwise.
pub proof fn lemma_value_parse_prefix(s: Seq<bool>, len: int, pos: int, st: Window)
    requires
        0 <= len <= s.len(),
        0 <= pos <= len,
    ensures
        match value_parse(s, pos, st) {
            Ok((v, p, st2)) => pos <= p <= s.len() && value_parse(s.take(len), pos, st) == if p <= len {
                Ok::<(u64, int, Window), Error>((v, p, st2))
            } else {
                Err::<(u64, int, Window), Error>(Error::UnexpectedEnd)
            },
            Err(_) => true,
        },
{
    broadcast use lemma_take_bits_prefix;

    reveal(value_parse);
}

/// Reading `k` points after `first`, starting at `pos`: the points so far, the position after
/// them and the reader's states.
pub open spec fn parse_rest(s: Seq<bool>, pos: int, first: Point, k: nat) -> Result<
    (Seq<Point>, int, Dod, Window),
    Error,
>
    decreases k,
{
    if k == 0 {
        Ok((seq![first], pos, Dod { prev: first.timestamp, delta: 0 }, window_start(first.value)))
    } else {
        match parse_rest(s, pos, first, (k - 1) as nat) {
            Err(e) => Err(e),
            Ok((pts, p, ts, xs)) => match dod_parse(s, p) {
                Err(e) => Err(e),
                Ok((d, p2)) => match value_parse(s, p2, xs) {
                    Err(e) => Err(e),
                    Ok((v, p3, xs2)) => Ok(
                        (
                            pts.push(Point { timestamp: ts.advance(d).prev, value: v }),
                            p3,
                            ts.advance(d),
                            xs2,
                        ),
                    ),
                },
            },
        }
    }
}

/// Reading a whole block body.
pub open spec fn block_parse(s: Seq<bool>) -> Result<Seq<Point>, Error> {
    match take_bits(s, 0, 32) {
        Err(e) => Err(e),
        Ok((count, p)) => if count == 0 {
            Ok(Seq::empty())
        } else {
            match take_bits(s, p, 64) {
                Err(e) => Err(e),
                Ok((ts, p2)) => match take_bits(s, p2, 64) {
                    Err(e) => Err(e),
                    Ok((v, p3)) => match parse_rest(
                        s,
                        p3,
                        Point { timestamp: ts as i64, value: v },
                        (count - 1) as nat,
                    ) {
                        Err(e) => Err(e),
                        Ok((pts, _, _, _)) => Ok(pts),
                    },
                },
            }
        },
    }
}

proof fn lemma_states_wf(first: Point, rest: Seq<Point>)
    ensures
        window_wf(states(first, rest).1),
    decreases rest.len(),
{
    if rest.len() > 0 {
        lemma_states_wf(first, rest.drop_last());
        lemma_value_after_wf(states(first, rest.drop_last()).1, rest.last().value);
    }
}

proof fn lemma_parse_rest_err(s: Seq<bool>, pos: int, first: Point, k: nat, k2: nat)
    requires
        k <= k2,
        parse_rest(s, pos, first, k) is Err,
    ensures
        parse_rest(s, pos, first, k2) == parse_rest(s, pos, first, k),
    decreases k2,
{
    if k2 > k {
        lemma_parse_rest_err(s, pos, first, k, (k2 - 1) as nat);
    }
}

proof fn lemma_parse_rest_roundtrip(s: Seq<bool>, pos: int, first: Point, rest: Seq<Point>)
    requires
        starts_with(s, pos, rest_bits(first, rest)),
    ensures
        parse_rest(s, pos, first, rest.len()) == Ok::<(Seq<Point>, int, Dod, Window), Error>(
            (
                seq![first] + rest,
                pos + rest_bits(first, rest).len(),
                states(first, rest).0,
                states(first, rest).1,
            ),
        ),
    decreases rest.len(),
{
    if rest.len() == 0 {
        assert(seq![first] + rest =~= seq![first]);
    } else {
        let init = rest.drop_last();
        let last = rest.last();
        let (ts, xs) = states(first, init);
        let a = rest_bits(first, init);
        let b = dod_bits(ts.delta_of(last.timestamp));
        let c = value_bits(xs, last.value);
        assert(rest_bits(first, rest) == (a + b) + c);
        lemma_starts_with_concat(s, pos, a + b, c);
        lemma_starts_with_concat(s, pos, a, b);
        lemma_parse_rest_roundtrip(s, pos, first, init);
        assert(init.len() == (rest.len() - 1) as nat);
        lemma_dod_roundtrip(s, pos + a.len(), ts.delta_of(last.timestamp));
        ts.lemma_advance_after(last.timestamp);
        lemma_states_wf(first, init);
        lemma_value_roundtrip(s, pos + a.len() + b.len(), xs, last.value);
        assert((seq![first] + init).push(Point { timestamp: last.timestamp, value: last.value })
            =~= seq![first] + rest);
    }
}

/// What a Chimp block's body encodes, it decodes back to.
pub proof fn lemma_block_roundtrip(points: Seq<Point>)
    requires
        points.len() <= u32::MAX,
    ensures
        block_parse(padded(block_bits(points))) == Ok::<Seq<Point>, Error>(points),
{
    let s = padded(block_bits(points));
    let head = bits_of(points.len() as u64, 32);
    let tail = if points.len() == 0 {
        Seq::empty()
    } else {
        bits_of(points[0].timestamp as u64, 64) + bits_of(points[0].value, 64) + rest_bits(
            points[0],
            points.drop_first(),
        )
    };
    assert(s.subrange(0, block_bits(points).len() as int) =~= block_bits(points));
    lemma_starts_with_concat(s, 0, head, tail);
    lemma_count_roundtrip(s, 0, points.len() as u64);
    if points.len() == 0 {
        assert(points =~= Seq::<Point>::empty());
    } else {
        let first = points[0];
        let a = bits_of(first.timestamp as u64, 64);
        let b = bits_of(first.value, 64);
        let c = rest_bits(first, points.drop_first());
        lemma_starts_with_concat(s, 32, a + b, c);
        lemma_starts_with_concat(s, 32, a, b);
        lemma_word_roundtrip(s, 32, first.timestamp as u64);
        lemma_word_roundtrip(s, 96, first.value);
        lemma_signed_word(first.timestamp);
        lemma_parse_rest_roundtrip(s, 160, first, points.drop_first());
        assert(seq![first] + points.drop_first() =~= points);
    }
}

/// Reading points from a prefix of a stream gives what the whole stream gives when their bits
/// lie inside the prefix, and runs out of stream otherwise.
proof fn lemma_parse_rest_prefix(s: Seq<bool>, len: int, pos: int, first: Point, k: nat)
    requires
        0 <= len <= s.len(),
        0 <= pos <= len,
    ensures
        match parse_rest(s, pos, first, k) {
            Ok((pts, p, ts, xs)) => pos <= p <= s.len() && parse_rest(s.take(len), pos, first, k)
                == if p <= len {
                Ok::<(Seq<Point>, int, Dod, Window), Error>((pts, p, ts, xs))
            } else {
                Err::<(Seq<Point>, int, Dod, Window), Error>(Error::UnexpectedEnd)
            },
            Err(_) => true,
        },
    decreases k,
{
    if k > 0 {
        lemma_parse_rest_prefix(s, len, pos, first, (k - 1) as nat);
        match parse_rest(s, pos, first, (k - 1) as nat) {
            Ok((pts, p, ts, xs)) => {
                let l2 = if p <= len { len } else { s.len() as int };
                lemma_dod_parse_prefix(s, l2, p);
                match dod_parse(s, p) {
                    Ok((d, p2)) => {
                        let l3 = if p2 <= len { len } else { s.len() as int };
                        lemma_value_parse_prefix(s, l3, p2, xs);
                    },
                    Err(_) => {},
                }
            },
            Err(_) => {},
        }
    }
}

/// A block body cut short of its last bit does not decode: it runs out of stream.
pub proof fn lemma_block_prefix(points: Seq<Point>, len: int)
    requires
        points.len() <= u32::MAX,
        0 <= len < block_bits(points).len(),
    ensures
        block_parse(padded(block_bits(points)).take(len)) == Err::<Seq<Point>, Error>(
            Error::UnexpectedEnd,
        ),
{
    broadcast use lemma_take_bits_prefix;

    let s = padded(block_bits(points));
    let head = bits_of(points.len() as u64, 32);
    let tail = if points.len() == 0 {
        Seq::empty()
    } else {
        bits_of(points[0].timestamp as u64, 64) + bits_of(points[0].value, 64) + rest_bits(
            points[0],
            points.drop_first(),
        )
    };
    assert(s.subrange(0, block_bits(points).len() as int) =~= block_bits(points));
    lemma_starts_with_concat(s, 0, head, tail);
    lemma_count_roundtrip(s, 0, points.len() as u64);
    if points.len() > 0 {
        let first = points[0];
        let a = bits_of(first.timestamp as u64, 64);
        let b = bits_of(first.value, 64);
        let c = rest_bits(first, points.drop_first());
        lemma_starts_with_concat(s, 32, a + b, c);
        lemma_starts_with_concat(s, 32, a, b);
        lemma_word_roundtrip(s, 32, first.timestamp as u64);
        lemma_word_roundtrip(s, 96, first.value);
        lemma_signed_word(first.timestamp);
        if len >= 160 {
            lemma_parse_rest_roundtrip(s, 160, first, points.drop_first());
            lemma_parse_rest_prefix(s, len, 160, first, points.drop_first().len());
        }
    }
}

pub struct Chimp;

impl Chimp {
    pub fn name(&self) -> (n: &'static str)
        ensures
            n@ == "chimp"@,
    {
        "chimp"
    }

    pub fn encode(&self, points: &[Point]) -> (res: Result<Vec<u8>, Error>)
        requires
            points@.len() <= usize::MAX / 256,
        ensures
            points@.len() > u32::MAX ==> res == Err::<Vec<u8>, Error>(
                Error::TooManyPoints(points@.len() as usize),
            ),
            points@.len() <= u32::MAX ==> (res matches Ok(block) && frames(
                block@,
                TAG_CHIMP,
                block_bits(points@),
            )),
    {
        let (head, mut w) = start_block(TAG_CHIMP, points)?;
        let ghost start = w@;
        if points.len() > 0 {
            let first = points[0];
            w.write_bits(first.timestamp as u64, 64);
            w.write_bits(first.value, 64);
            let mut timestamps = Dod::new(first.timestamp);
            let mut values = ChimpWriter::new(first.value);
            let mut i: usize = 1;
            assert(points@.subrange(1, 1) =~= Seq::<Point>::empty());
            while i < points.len()
                invariant
                    1 <= i <= points@.len() <= usize::MAX / 256,
                    first == points@[0],
                    w.wf(),
                    w@ == start + bits_of(first.timestamp as u64, 64) + bits_of(first.value, 64)
                        + rest_bits(first, points@.subrange(1, i as int)),
                    start.len() == 32,
                    w@.len() <= 160 + 149 * (i - 1),
                    (timestamps, values@) == states(first, points@.subrange(1, i as int)),
                    window_wf(values@),
                decreases points@.len() - i,
            {
                let ghost sub = points@.subrange(1, i as int);
                proof {
                    lemma_dod_len(timestamps.delta_of(points@[i as int].timestamp));
                    lemma_value_bits_len(values@, points@[i as int].value);
                    lemma_value_after_wf(values@, points@[i as int].value);
                    assert(points@.subrange(1, i + 1).drop_last() =~= sub);
                }
                timestamps.write(&mut w, points[i].timestamp);
                values.write(&mut w, points[i].value);
                i += 1;
            }
            assert(points@.subrange(1, points@.len() as int) =~= points@.drop_first());
        }
        assert(w@ =~= block_bits(points@));
        let block = finish_block(head, w);
        assert(block@[0] == block@.subrange(0, 1)[0]);
        Ok(block)
    }
}

/// Decodes a Chimp block body, the bytes after the tag.
pub fn decode(body: &[u8]) -> (res: Result<Vec<Point>, Error>)
    requires
        8 * body@.len() <= usize::MAX,
    ensures
        match block_parse(stream_of(body@)) {
            Ok(points) => res matches Ok(v) && v@ == points,
            Err(e) => res == Err::<Vec<Point>, Error>(e),
        },
{
    let mut r = BitReader::new(body);
    let ghost s = stream_of(body@);
    let count = read_count(&mut r)?;
    let mut points = Vec::with_capacity(crate::codec::capacity_for(count, body.len()));
    if count == 0 {
        return Ok(points);
    }
    let timestamp = r.read_bits(64)? as i64;
    let bits = r.read_bits(64)?;
    points.push(Point::new(timestamp, bits));
    let ghost first = Point { timestamp, value: bits };
    let ghost p0 = r.pos();
    let mut timestamps = Dod::new(timestamp);
    let mut values = ChimpReader::new(bits);
    let mut i: usize = 1;
    assert(points@ =~= seq![first]);
    while i < count
        invariant
            1 <= i <= count,
            r.wf(),
            r.stream() == s,
            s == stream_of(body@),
            block_parse(s) == match parse_rest(s, p0, first, (count - 1) as nat) {
                Err(e) => Err(e),
                Ok((pts, _, _, _)) => Ok::<Seq<Point>, Error>(pts),
            },
            parse_rest(s, p0, first, (i - 1) as nat) == Ok::<(Seq<Point>, int, Dod, Window), Error>(
                (points@, r.pos(), timestamps, values@),
            ),
            window_wf(values@),
        decreases count - i,
    {
        let ghost k = (i - 1) as nat;
        let ghost pos_before = r.pos();
        let ghost ts_before = timestamps;
        let ghost xs_before = values@;
        let ghost pts_before = points@;
        let timestamp = match timestamps.read(&mut r) {
            Ok(t) => t,
            Err(e) => {
                proof {
                    assert(parse_rest(s, p0, first, k + 1) == Err::<(Seq<Point>, int, Dod, Window), Error>(e));
                    lemma_parse_rest_err(s, p0, first, k + 1, (count - 1) as nat);
                }
                return Err(e);
            },
        };
        let ghost pos_mid = r.pos();
        let bits = match values.read(&mut r) {
            Ok(b) => b,
            Err(e) => {
                proof {
                    assert(dod_parse(s, pos_before) matches Ok((_, p)) && p == pos_mid);
                    assert(parse_rest(s, p0, first, k + 1) == Err::<(Seq<Point>, int, Dod, Window), Error>(e));
                    lemma_parse_rest_err(s, p0, first, k + 1, (count - 1) as nat);
                }
                return Err(e);
            },
        };
        points.push(Point::new(timestamp, bits));
        i += 1;
    }
    Ok(points)
}

} // verus!
