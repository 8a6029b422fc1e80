//! Decimal scaling, the trick VictoriaMetrics uses to beat Gorilla on real metrics.
//!
//! XOR compression assumes consecutive values share most of their binary representation, but
//! a reading like 12.3 °C is a decimal quantity that IEEE-754 stores as an awkward binary
//! fraction. Multiplying the block by the smallest 10^s that turns every value into an exact
//! integer recovers the structure, and integers respond far better to delta-of-delta.
//!
//! Choosing the scale is floating-point work and happens before this codec is called: it is
//! handed the scale and each value's exact integer image, or nothing when the block has no
//! exact decimal scale, in which case it writes a Gorilla block instead.
use vstd::prelude::*;

use crate::bits::{
    lemma_take_bits_prefix,
    lemma_fitting_mask, lemma_signed_word, lemma_small_powers,
    bits_of, lemma_from_bits_fits, lemma_starts_with_concat, lemma_take_bits_of, padded,
    starts_with, stream_of, take_bits, BitReader, BitWriter,
};
use crate::codec::dod::{
    dod_bits, dod_parse, lemma_dod_len, lemma_dod_parse_prefix, lemma_dod_roundtrip,
};
use crate::codec::gorilla::{self, Gorilla};
use crate::codec::{
    finish_block, frames, lemma_count_roundtrip, lemma_word_roundtrip, read_count, start_block, Dod,
    TAG_DECIMAL,
};
use crate::error::Error;
use crate::Point;

verus! {

/// The largest decimal scale: 10^17 is the last power of ten below 2^63.
pub const MAX_SCALE: u8 = 17;

/// A point whose value is stored as an integer: the measured value times 10^scale.
#[derive(Clone, Copy, Debug, PartialEq, Eq, Structural)]
pub struct ScaledPoint {
    pub timestamp: i64,
    pub value: i64,
}

/// A block's decimal scale and every value scaled by 10^scale into an exact integer, in the
/// order of the points.
pub struct Scaled {
    pub scale: u8,
    pub values: Vec<i64>,
}

/// The points of a block with their values replaced by their scaled integers.
pub open spec fn scaled_points(points: Seq<Point>, values: Seq<i64>) -> Seq<ScaledPoint> {
    Seq::new(points.len(), |i: int| ScaledPoint { timestamp: points[i].timestamp, value: values[i] })
}

/// The scale and scaled values a caller hands over, as plain values.
pub open spec fn scaling_of(scaled: Option<&Scaled>) -> Option<(u8, Seq<i64>)> {
    match scaled {
        None => None,
        Some(sc) => Some((sc.scale, sc.values@)),
    }
}

/// The tag and bit stream of the block written for `points`: a decimal block at the given
/// scaling, or a Gorilla block when there is none.
pub open spec fn encoded(points: Seq<Point>, scaling: Option<(u8, Seq<i64>)>) -> (u8, Seq<bool>) {
    match scaling {
        None => (crate::codec::TAG_GORILLA, gorilla::block_bits(points)),
        Some((scale, values)) => (TAG_DECIMAL, block_bits(scale, scaled_points(points, values))),
    }
}

/// The delta-of-delta states of timestamps and values after the points that follow `first`.
pub open spec fn states(first: ScaledPoint, rest: Seq<ScaledPoint>) -> (Dod, Dod)
    decreases rest.len(),
{
    if rest.len() == 0 {
        (Dod { prev: first.timestamp, delta: 0 }, Dod { prev: first.value, delta: 0 })
    } else {
        let (ts, vs) = states(first, rest.drop_last());
        (ts.after(rest.last().timestamp), vs.after(rest.last().value))
    }
}

/// The bits for the points that follow `first`: each one's timestamp delta-of-delta, then its
/// scaled value's.
pub open spec fn rest_bits(first: ScaledPoint, rest: Seq<ScaledPoint>) -> Seq<bool>
    decreases rest.len(),
{
    if rest.len() == 0 {
        Seq::empty()
    } else {
        let (ts, vs) = states(first, rest.drop_last());
        rest_bits(first, rest.drop_last()) + dod_bits(ts.delta_of(rest.last().timestamp))
            + dod_bits(vs.delta_of(rest.last().value))
    }
}

/// A decimal block's bit stream: the 32-bit count, the 8-bit scale, then, if there is a
/// first point, its timestamp and scaled value in 64 bits each and the rest.
pub open spec fn block_bits(scale: u8, points: Seq<ScaledPoint>) -> Seq<bool> {
    bits_of(points.len() as u64, 32) + bits_of(scale as u64, 8) + if points.len() == 0 {
        Seq::empty()
    } else {
        bits_of(points[0].timestamp as u64, 64) + bits_of(points[0].value as u64, 64) + rest_bits(
            points[0],
            points.drop_first(),
        )
    }
}

pub open spec fn parse_rest(s: Seq<bool>, pos: int, first: ScaledPoint, k: nat) -> Result<
    (Seq<ScaledPoint>, int, Dod, Dod),
    Error,
>
    decreases k,
{
    if k == 0 {
        Ok(
            (
                seq![first],
                pos,
                Dod { prev: first.timestamp, delta: 0 },
                Dod { prev: first.value, delta: 0 },
            ),
        )
    } else {
        match parse_rest(s, pos, first, (k - 1) as nat) {
            Err(e) => Err(e),
            Ok((pts, p, ts, vs)) => match dod_parse(s, p) {
                Err(e) => Err(e),
                Ok((d, p2)) => match dod_parse(s, p2) {
                    Err(e) => Err(e),
                    Ok((dv, p3)) => Ok(
                        (
                            pts.push(
                                ScaledPoint { timestamp: ts.advance(d).prev, value: vs.advance(dv).prev },
                            ),
                            p3,
                            ts.advance(d),
                            vs.advance(dv),
                        ),
                    ),
                },
            },
        }
    }
}

/// Reading a decimal block body: its scale and its points. A scale above 17 is malformed.
pub open spec fn block_parse(s: Seq<bool>) -> Result<(u8, Seq<ScaledPoint>), Error> {
    match take_bits(s, 0, 32) {
        Err(e) => Err(e),
        Ok((count, p)) => match take_bits(s, p, 8) {
            Err(e) => Err(e),
            Ok((scale, p1)) => if scale > MAX_SCALE {
                Err(Error::MalformedBlock)
            } else if count == 0 {
                Ok((scale as u8, Seq::empty()))
            } else {
                match take_bits(s, p1, 64) {
                    Err(e) => Err(e),
                    Ok((ts, p2)) => match take_bits(s, p2, 64) {
                        Err(e) => Err(e),
                        Ok((v, p3)) => match parse_rest(
                            s,
                            p3,
                            ScaledPoint { timestamp: ts as i64, value: v as i64 },
                            (count - 1) as nat,
                        ) {
                            Err(e) => Err(e),
                            Ok((pts, _, _, _)) => Ok((scale as u8, pts)),
                        },
                    },
                }
            },
        },
    }
}

proof fn lemma_parse_rest_err(s: Seq<bool>, pos: int, first: ScaledPoint, k: nat, k2: nat)
    requires
        k <= k2,
        parse_rest(s, pos, first, k) is Err,
    ensures
        parse_rest(s, pos, first, k2) == parse_rest(s, pos, first, k),
    decreases k2,
{
    if k2 > k {
        lemma_parse_rest_err(s, pos, first, k, (k2 - 1) as nat);
    }
}

proof fn lemma_parse_rest_roundtrip(
    s: Seq<bool>,
    pos: int,
    first: ScaledPoint,
    rest: Seq<ScaledPoint>,
)
    requires
        starts_with(s, pos, rest_bits(first, rest)),
    ensures
        parse_rest(s, pos, first, rest.len()) == Ok::<(Seq<ScaledPoint>, int, Dod, Dod), Error>(
            (
                seq![first] + rest,
                pos + rest_bits(first, rest).len(),
                states(first, rest).0,
                states(first, rest).1,
            ),
        ),
    decreases rest.len(),
{
    if rest.len() == 0 {
        assert(seq![first] + rest =~= seq![first]);
    } else {
        let init = rest.drop_last();
        let last = rest.last();
        let (ts, vs) = states(first, init);
        let a = rest_bits(first, init);
        let b = dod_bits(ts.delta_of(last.timestamp));
        let c = dod_bits(vs.delta_of(last.value));
        assert(rest_bits(first, rest) == (a + b) + c);
        lemma_starts_with_concat(s, pos, a + b, c);
        lemma_starts_with_concat(s, pos, a, b);
        lemma_parse_rest_roundtrip(s, pos, first, init);
        assert(init.len() == (rest.len() - 1) as nat);
        lemma_dod_roundtrip(s, pos + a.len(), ts.delta_of(last.timestamp));
        lemma_dod_roundtrip(s, pos + a.len() + b.len(), vs.delta_of(last.value));
        ts.lemma_advance_after(last.timestamp);
        vs.lemma_advance_after(last.value);
        assert((seq![first] + init).push(ScaledPoint { timestamp: last.timestamp, value: last.value })
            =~= seq![first] + rest);
    }
}

/// What a decimal block's body encodes, it decodes back to: the scale and the scaled points.
#[verifier::rlimit(40)]
pub proof fn lemma_block_roundtrip(scale: u8, points: Seq<ScaledPoint>)
    requires
        points.len() <= u32::MAX,
        scale <= MAX_SCALE,
    ensures
        block_parse(padded(block_bits(scale, points))) == Ok::<(u8, Seq<ScaledPoint>), Error>(
            (scale, points),
        ),
{
    let s = padded(block_bits(scale, points));
    let head = bits_of(points.len() as u64, 32);
    let sc = bits_of(scale as u64, 8);
    let tail = if points.len() == 0 {
        Seq::empty()
    } else {
        bits_of(points[0].timestamp as u64, 64) + bits_of(points[0].value as u64, 64) + rest_bits(
            points[0],
            points.drop_first(),
        )
    };
    assert(s.subrange(0, block_bits(scale, points).len() as int) =~= block_bits(scale, points));
    lemma_starts_with_concat(s, 0, head + sc, tail);
    lemma_starts_with_concat(s, 0, head, sc);
    lemma_count_roundtrip(s, 0, points.len() as u64);
    lemma_take_bits_of(s, 32, scale as u64, 8);
    let su = scale as u64;
    lemma_small_powers();
    lemma_fitting_mask(su, 8);
    if points.len() == 0 {
        assert(points =~= Seq::<ScaledPoint>::empty());
    } else {
        let first = points[0];
        let a = bits_of(first.timestamp as u64, 64);
        let b = bits_of(first.value as u64, 64);
        let c = rest_bits(first, points.drop_first());
        lemma_starts_with_concat(s, 40, a + b, c);
        lemma_starts_with_concat(s, 40, a, b);
        lemma_word_roundtrip(s, 40, first.timestamp as u64);
        lemma_word_roundtrip(s, 104, first.value as u64);
        lemma_signed_word(first.timestamp);
        lemma_signed_word(first.value);
        lemma_parse_rest_roundtrip(s, 168, first, points.drop_first());
        assert(seq![first] + points.drop_first() =~= points);
    }
}

/// Reading points from a prefix of a stream gives what the whole stream gives when their bits
/// lie inside the prefix, and runs out of stream otherwise.
proof fn lemma_parse_rest_prefix(s: Seq<bool>, len: int, pos: int, first: ScaledPoint, k: nat)
    requires
        0 <= len <= s.len(),
        0 <= pos <= len,
    ensures
        match parse_rest(s, pos, first, k) {
            Ok((pts, p, ts, vs)) => pos <= p <= s.len() && parse_rest(s.take(len), pos, first, k)
                == if p <= len {
                Ok::<(Seq<ScaledPoint>, int, Dod, Dod), Error>((pts, p, ts, vs))
            } else {
                Err::<(Seq<ScaledPoint>, int, Dod, Dod), Error>(Error::UnexpectedEnd)
            },
            Err(_) => true,
        },
    decreases k,
{
    if k > 0 {
        lemma_parse_rest_prefix(s, len, pos, first, (k - 1) as nat);
        match parse_rest(s, pos, first, (k - 1) as nat) {
            Ok((pts, p, ts, vs)) => {
                let l2 = if p <= len { len } else { s.len() as int };
                lemma_dod_parse_prefix(s, l2, p);
                match dod_parse(s, p) {
                    Ok((d, p2)) => {
                        let l3 = if p2 <= len { len } else { s.len() as int };
                        lemma_dod_parse_prefix(s, l3, p2);
                    },
                    Err(_) => {},
                }
            },
            Err(_) => {},
        }
    }
}

/// A block body cut short of its last bit does not decode: it runs out of stream.
#[verifier::rlimit(40)]
pub proof fn lemma_block_prefix(scale: u8, points: Seq<ScaledPoint>, len: int)
    requires
        points.len() <= u32::MAX,
        scale <= MAX_SCALE,
        0 <= len < block_bits(scale, points).len(),
    ensures
        block_parse(padded(block_bits(scale, points)).take(len)) == Err::<
            (u8, Seq<ScaledPoint>),
            Error,
        >(Error::UnexpectedEnd),
{
    broadcast use lemma_take_bits_prefix;

    let s = padded(block_bits(scale, points));
    let head = bits_of(points.len() as u64, 32);
    let sc = bits_of(scale as u64, 8);
    let tail = if points.len() == 0 {
        Seq::empty()
    } else {
        bits_of(points[0].timestamp as u64, 64) + bits_of(points[0].value as u64, 64) + rest_bits(
            points[0],
            points.drop_first(),
        )
    };
    assert(s.subrange(0, block_bits(scale, points).len() as int) =~= block_bits(scale, points));
    lemma_starts_with_concat(s, 0, head + sc, tail);
    lemma_starts_with_concat(s, 0, head, sc);
    lemma_count_roundtrip(s, 0, points.len() as u64);
    lemma_take_bits_of(s, 32, scale as u64, 8);
    let su = scale as u64;
    lemma_small_powers();
    lemma_fitting_mask(su, 8);
    if points.len() > 0 {
        let first = points[0];
        let a = bits_of(first.timestamp as u64, 64);
        let b = bits_of(first.value as u64, 64);
        let c = rest_bits(first, points.drop_first());
        lemma_starts_with_concat(s, 40, a + b, c);
        lemma_starts_with_concat(s, 40, a, b);
        lemma_word_roundtrip(s, 40, first.timestamp as u64);
        lemma_word_roundtrip(s, 104, first.value as u64);
        lemma_signed_word(first.timestamp);
        lemma_signed_word(first.value);
        if len >= 168 {
            lemma_parse_rest_roundtrip(s, 168, first, points.drop_first());
            lemma_parse_rest_prefix(s, len, 168, first, points.drop_first().len());
        }
    }
}

pub struct Decimal;

impl Decimal {
    pub fn name(&self) -> (n: &'static str)
        ensures
            n@ == "decimal"@,
    {
        "decimal"
    }

    /// Encodes `points` at the given scaling, or as a Gorilla block when there is none.
    pub fn encode(&self, points: &[Point], scaled: Option<&Scaled>) -> (res: Result<
        Vec<u8>,
        Error,
    >)
        requires
            points@.len() <= usize::MAX / 256,
            scaled matches Some(sc) ==> sc.scale <= MAX_SCALE && sc.values@.len()
                == points@.len(),
        ensures
            points@.len() > u32::MAX ==> res == Err::<Vec<u8>, Error>(
                Error::TooManyPoints(points@.len() as usize),
            ),
            points@.len() <= u32::MAX ==> (res matches Ok(block) && frames(
                block@,
                encoded(points@, scaling_of(scaled)).0,
                encoded(points@, scaling_of(scaled)).1,
            )),
    {
        let sc = match scaled {
            None => return Gorilla.encode(points),
            Some(sc) => sc,
        };
        let ghost sp = scaled_points(points@, sc.values@);
        let (head, mut w) = start_block(TAG_DECIMAL, points)?;
        w.write_bits(sc.scale as u64, 8);
        let ghost start = w@;
        if points.len() > 0 {
            let first = ScaledPoint { timestamp: points[0].timestamp, value: sc.values[0] };
            w.write_bits(first.timestamp as u64, 64);
            w.write_bits(first.value as u64, 64);
            let mut timestamps = Dod::new(first.timestamp);
            let mut values = Dod::new(first.value);
            let mut i: usize = 1;
            assert(sp.subrange(1, 1) =~= Seq::<ScaledPoint>::empty());
            while i < points.len()
                invariant
                    1 <= i <= points@.len() <= usize::MAX / 256,
                    sc.values@.len() == points@.len(),
                    sp == scaled_points(points@, sc.values@),
                    first == sp[0],
                    w.wf(),
                    w@ == start + bits_of(first.timestamp as u64, 64) + bits_of(
                        first.value as u64,
                        64,
                    ) + rest_bits(first, sp.subrange(1, i as int)),
                    start.len() == 40,
                    w@.len() <= 168 + 144 * (i - 1),
                    (timestamps, values) == states(first, sp.subrange(1, i as int)),
                decreases points@.len() - i,
            {
                let ghost sub = sp.subrange(1, i as int);
                proof {
                    lemma_dod_len(timestamps.delta_of(points@[i as int].timestamp));
                    lemma_dod_len(values.delta_of(sc.values@[i as int]));
                    assert(sp.subrange(1, i + 1).drop_last() =~= sub);
                }
                timestamps.write(&mut w, points[i].timestamp);
                values.write(&mut w, sc.values[i]);
                i += 1;
            }
            assert(sp.subrange(1, points@.len() as int) =~= sp.drop_first());
        }
        assert(w@ =~= block_bits(sc.scale, sp));
        let block = finish_block(head, w);
        assert(block@[0] == block@.subrange(0, 1)[0]);
        Ok(block)
    }
}

/// Decodes a decimal block body: the scale and the points with their scaled values.
pub fn decode(body: &[u8]) -> (res: Result<(u8, Vec<ScaledPoint>), Error>)
    requires
        8 * body@.len() <= usize::MAX,
    ensures
        match block_parse(stream_of(body@)) {
            Ok((scale, points)) => res matches Ok((sc, v)) && sc == scale && v@ == points,
            Err(e) => res == Err::<(u8, Vec<ScaledPoint>), Error>(e),
        },
{
    let mut r = BitReader::new(body);
    let ghost s = stream_of(body@);
    let count = read_count(&mut r)?;
    let scale = r.read_bits(8)?;
    if scale > MAX_SCALE as u64 {
        return Err(Error::MalformedBlock);
    }
    let scale = scale as u8;
    let mut points = Vec::with_capacity(crate::codec::capacity_for(count, body.len()));
    if count == 0 {
        return Ok((scale, points));
    }
    let timestamp = r.read_bits(64)? as i64;
    let value = r.read_bits(64)? as i64;
    points.push(ScaledPoint { timestamp, value });
    let ghost first = ScaledPoint { timestamp, value };
    let ghost p0 = r.pos();
    let mut timestamps = Dod::new(timestamp);
    let mut values = Dod::new(value);
    let mut i: usize = 1;
    assert(points@ =~= seq![first]);
    while i < count
        invariant
            1 <= i <= count,
            r.wf(),
            r.stream() == s,
            s == stream_of(body@),
            block_parse(s) == match parse_rest(s, p0, first, (count - 1) as nat) {
                Err(e) => Err(e),
                Ok((pts, _, _, _)) => Ok::<(u8, Seq<ScaledPoint>), Error>((scale, pts)),
            },
            parse_rest(s, p0, first, (i - 1) as nat) == Ok::<
                (Seq<ScaledPoint>, int, Dod, Dod),
                Error,
            >((points@, r.pos(), timestamps, values)),
        decreases count - i,
    {
        let ghost k = (i - 1) as nat;
        let ghost pos_before = r.pos();
        let timestamp = match timestamps.read(&mut r) {
            Ok(t) => t,
            Err(e) => {
                proof {
                    assert(parse_rest(s, p0, first, k + 1) == Err::<
                        (Seq<ScaledPoint>, int, Dod, Dod),
                        Error,
                    >(e));
                    lemma_parse_rest_err(s, p0, first, k + 1, (count - 1) as nat);
                }
                return Err(e);
            },
        };
        let ghost pos_mid = r.pos();
        let value = match values.read(&mut r) {
            Ok(v) => v,
            Err(e) => {
                proof {
                    assert(dod_parse(s, pos_before) matches Ok((_, p)) && p == pos_mid);
                    assert(parse_rest(s, p0, first, k + 1) == Err::<
                        (Seq<ScaledPoint>, int, Dod, Dod),
                        Error,
                    >(e));
                    lemma_parse_rest_err(s, p0, first, k + 1, (count - 1) as nat);
                }
                return Err(e);
            },
        };
        points.push(ScaledPoint { timestamp, value });
        i += 1;
    }
    Ok((scale, points))
}

} // verus!
