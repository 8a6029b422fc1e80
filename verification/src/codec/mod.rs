//! Block framing shared by every codec, and the decoder that dispatches on the tag byte.
use vstd::prelude::*;

use crate::bits::{
    lemma_stream_prefix, bits_of, lemma_take_bits_of, padded, starts_with, stream_of, take_bits, BitReader, BitWriter,
};
use crate::codec::dod::{dod_bits, dod_parse, lemma_dod_len, lemma_dod_roundtrip};
use crate::error::Error;
use crate::Point;
use crate::codec::decimal::ScaledPoint;

pub mod auto;
pub mod chimp;
pub mod chimp128;
pub mod decimal;
pub mod dod;
pub mod gorilla;

verus! {

pub const TAG_GORILLA: u8 = 0;

pub const TAG_DECIMAL: u8 = 1;

pub const TAG_CHIMP: u8 = 2;

pub const TAG_CHIMP128: u8 = 3;

/// Delta-of-delta state: the previous value and the previous delta, both zero-delta at the
/// start of a block. Writer and reader keep the same state.
#[derive(Clone, Copy)]
pub struct Dod {
    pub prev: i64,
    pub delta: i64,
}

impl Dod {
    /// The delta-of-delta written for `value`.
    pub open spec fn delta_of(self, value: i64) -> i64 {
        value.wrapping_sub(self.prev).wrapping_sub(self.delta)
    }

    /// The state after `value` has been written.
    pub open spec fn after(self, value: i64) -> Dod {
        Dod { prev: value, delta: value.wrapping_sub(self.prev) }
    }

    /// The state after a delta-of-delta `dod` has been read; its `prev` is the value read.
    pub open spec fn advance(self, dod: i64) -> Dod {
        let delta = self.delta.wrapping_add(dod);
        Dod { prev: self.prev.wrapping_add(delta), delta }
    }

    /// Reading what was written for `value` restores `value` and the writer's state.
    pub proof fn lemma_advance_after(self, value: i64)
        ensures
            self.advance(self.delta_of(value)) == self.after(value),
    {
    }

    pub fn new(first: i64) -> (d: Self)
        ensures
            d == (Dod { prev: first, delta: 0 }),
    {
        Dod { prev: first, delta: 0 }
    }

    pub fn write(&mut self, w: &mut BitWriter, value: i64)
        requires
            old(w).wf(),
            old(w)@.len() + 80 < usize::MAX,
        ensures
            final(w).wf(),
            final(w)@ == old(w)@ + dod_bits(old(self).delta_of(value)),
            *final(self) == old(self).after(value),
    {
        let delta = value.wrapping_sub(self.prev);
        dod::write(w, delta.wrapping_sub(self.delta));
        self.prev = value;
        self.delta = delta;
    }

    pub fn read(&mut self, r: &mut BitReader) -> (res: Result<i64, Error>)
        requires
            old(r).wf(),
        ensures
            final(r).wf(),
            final(r).stream() == old(r).stream(),
            match dod_parse(old(r).stream(), old(r).pos()) {
                Ok((d, next)) => {
                    &&& res == Ok::<i64, Error>(old(self).advance(d).prev)
                    &&& *final(self) == old(self).advance(d)
                    &&& final(r).pos() == next
                },
                Err(e) => res == Err::<i64, Error>(e),
            },
    {
        let delta = self.delta.wrapping_add(dod::read(r)?);
        self.prev = self.prev.wrapping_add(delta);
        self.delta = delta;
        Ok(self.prev)
    }
}

/// The 32-bit point count that opens every block.
pub fn write_count(w: &mut BitWriter, count: usize) -> (res: Result<(), Error>)
    requires
        old(w).wf(),
        old(w)@.len() + 40 < usize::MAX,
    ensures
        final(w).wf(),
        count > u32::MAX ==> res == Err::<(), Error>(Error::TooManyPoints(count)) && final(w)@
            == old(w)@,
        count <= u32::MAX ==> res == Ok::<(), Error>(()) && final(w)@ == old(w)@ + bits_of(
            count as u64,
            32,
        ),
{
    if count > u32::MAX as usize {
        return Err(Error::TooManyPoints(count));
    }
    w.write_bits(count as u64, 32);
    Ok(())
}

pub fn read_count(r: &mut BitReader) -> (res: Result<usize, Error>)
    requires
        old(r).wf(),
    ensures
        final(r).wf(),
        final(r).stream() == old(r).stream(),
        match take_bits(old(r).stream(), old(r).pos(), 32) {
            Ok((v, next)) => res == Ok::<usize, Error>(v as usize) && final(r).pos() == next
                && v <= u32::MAX,
            Err(e) => res == Err::<usize, Error>(e),
        },
{
    let v = r.read_bits(32)?;
    proof {
        old(r).lemma_pos_bounds();
        let s = old(r).stream();
        let p = old(r).pos();
        if p + 32 <= s.len() {
            crate::bits::lemma_from_bits_fits(s.subrange(p, p + 32));
            crate::bits::lemma_fitting_mask(v, 32);
            crate::bits::lemma_small_powers();
        }
    }
    Ok(v as usize)
}

/// `block` is the tag byte `tag` followed by the bytes that carry `bits`, zero-padded.
pub open spec fn frames(block: Seq<u8>, tag: u8, bits: Seq<bool>) -> bool {
    &&& block.len() >= 1
    &&& block[0] == tag
    &&& stream_of(block.skip(1)) == padded(bits)
}

/// The size in bytes of a block that carries `bits`.
pub open spec fn framed_len(bits: Seq<bool>) -> nat {
    1 + (bits.len() + 7) / 8
}

/// A framed block's size is fixed by its bit stream.
pub proof fn lemma_framed_len(block: Seq<u8>, tag: u8, bits: Seq<bool>)
    requires
        frames(block, tag, bits),
    ensures
        block.len() == framed_len(bits),
{
    assert(stream_of(block.skip(1)).len() == 8 * (block.len() - 1));
    assert(padded(bits).len() == bits.len() + (8 - bits.len() % 8) % 8);
}

/// The count read back from a block header is the count written.
pub proof fn lemma_count_roundtrip(s: Seq<bool>, pos: int, count: u64)
    requires
        count <= u32::MAX,
        starts_with(s, pos, bits_of(count, 32)),
    ensures
        take_bits(s, pos, 32) == Ok::<(u64, int), Error>((count, pos + 32)),
{
    lemma_take_bits_of(s, pos, count, 32);
    crate::bits::lemma_fitting_mask(count, 32);
    crate::bits::lemma_small_powers();
}

/// A full 64-bit word read back is the word written.
pub proof fn lemma_word_roundtrip(s: Seq<bool>, pos: int, word: u64)
    requires
        starts_with(s, pos, bits_of(word, 64)),
    ensures
        take_bits(s, pos, 64) == Ok::<(u64, int), Error>((word, pos + 64)),
{
    lemma_take_bits_of(s, pos, word, 64);
    crate::bits::lemma_word_facts(word);
}

/// Opens a block: the tag byte, and a writer that already holds the point count.
pub fn start_block(tag: u8, points: &[Point]) -> (res: Result<(Vec<u8>, BitWriter), Error>)
    requires
        points@.len() <= usize::MAX / 256,
    ensures
        points@.len() > u32::MAX ==> res == Err::<(Vec<u8>, BitWriter), Error>(
            Error::TooManyPoints(points@.len() as usize),
        ),
        points@.len() <= u32::MAX ==> (res matches Ok((head, w)) && head@ == seq![tag] && w.wf()
            && w@ == bits_of(points@.len() as u64, 32)),
{
    let mut writer = BitWriter::with_capacity(points.len() * 3 + 16);
    write_count(&mut writer, points.len())?;
    Ok((vec![tag], writer))
}

/// Room to reserve for a block's points: the count it claims, but never more than its body
/// could hold, since every point after the first costs at least two bits. A corrupted count
/// must not make the decoder ask for memory the block could never fill.
pub fn capacity_for(count: usize, body_len: usize) -> (c: usize)
    requires
        8 * body_len <= usize::MAX,
    ensures
        c == if count < 4 * body_len + 1 {
            count as int
        } else {
            4 * body_len + 1
        },
{
    let most = 4 * body_len + 1;
    if count < most {
        count
    } else {
        most
    }
}

/// The tag byte followed by the bytes of a finished bit stream.
pub fn finish_block(head: Vec<u8>, writer: BitWriter) -> (block: Vec<u8>)
    requires
        writer.wf(),
    ensures
        block@.len() >= head@.len(),
        block@.subrange(0, head@.len() as int) == head@,
        stream_of(block@.skip(head@.len() as int)) == padded(writer@),
{
    let ghost h = head@;
    let mut head = head;
    let mut bytes = writer.finish();
    let ghost b = bytes@;
    head.append(&mut bytes);
    assert(head@.skip(h.len() as int) =~= b);
    assert(head@.subrange(0, h.len() as int) =~= h);
    head
}

/// What a block decodes to.
pub enum Content {
    /// Points whose values came back as their bit patterns.
    Points(Seq<Point>),
    /// A decimal block: its scale and each point with its value times 10^scale.
    Scaled(u8, Seq<ScaledPoint>),
}

/// A decoded block.
pub enum Decoded {
    Points(Vec<Point>),
    Scaled(u8, Vec<ScaledPoint>),
}

impl View for Decoded {
    type V = Content;

    open spec fn view(&self) -> Content {
        match self {
            Decoded::Points(v) => Content::Points(v@),
            Decoded::Scaled(scale, v) => Content::Scaled(*scale, v@),
        }
    }
}

/// Decoding a block: the leading tag byte names the codec, so a stored block stays readable
/// without tracking that separately.
pub open spec fn decode_spec(block: Seq<u8>) -> Result<Content, Error> {
    if block.len() == 0 {
        Err(Error::UnexpectedEnd)
    } else {
        let body = stream_of(block.skip(1));
        let tag = block[0];
        if tag == TAG_GORILLA {
            match gorilla::block_parse(body) {
                Ok(points) => Ok(Content::Points(points)),
                Err(e) => Err(e),
            }
        } else if tag == TAG_DECIMAL {
            match decimal::block_parse(body) {
                Ok((scale, points)) => Ok(Content::Scaled(scale, points)),
                Err(e) => Err(e),
            }
        } else if tag == TAG_CHIMP {
            match chimp::block_parse(body) {
                Ok(points) => Ok(Content::Points(points)),
                Err(e) => Err(e),
            }
        } else if tag == TAG_CHIMP128 {
            match chimp128::block_parse(body) {
                Ok(points) => Ok(Content::Points(points)),
                Err(e) => Err(e),
            }
        } else {
            Err(Error::UnknownEncoding(tag))
        }
    }
}

/// Decodes any block, whichever codec wrote it.
pub fn decode(block: &[u8]) -> (res: Result<Decoded, Error>)
    requires
        8 * block@.len() <= usize::MAX,
    ensures
        match decode_spec(block@) {
            Ok(content) => res matches Ok(d) && d@ == content,
            Err(e) => res == Err::<Decoded, Error>(e),
        },
{
    if block.len() == 0 {
        return Err(Error::UnexpectedEnd);
    }
    let (head, body) = block.split_at(1);
    let tag = head[0];
    assert(body@ =~= block@.skip(1));
    match tag {
        TAG_GORILLA => Ok(Decoded::Points(gorilla::decode(body)?)),
        TAG_DECIMAL => {
            let (scale, points) = decimal::decode(body)?;
            Ok(Decoded::Scaled(scale, points))
        },
        TAG_CHIMP => Ok(Decoded::Points(chimp::decode(body)?)),
        TAG_CHIMP128 => Ok(Decoded::Points(chimp128::decode(body)?)),
        other => Err(Error::UnknownEncoding(other)),
    }
}

/// Every Gorilla block decodes to the points it was written from.
pub proof fn lemma_gorilla_lossless(points: Seq<Point>, block: Seq<u8>)
    requires
        points.len() <= u32::MAX,
        frames(block, TAG_GORILLA, gorilla::block_bits(points)),
    ensures
        decode_spec(block) == Ok::<Content, Error>(Content::Points(points)),
{
    gorilla::lemma_block_roundtrip(points);
}

/// Every Chimp block decodes to the points it was written from.
pub proof fn lemma_chimp_lossless(points: Seq<Point>, block: Seq<u8>)
    requires
        points.len() <= u32::MAX,
        frames(block, TAG_CHIMP, chimp::block_bits(points)),
    ensures
        decode_spec(block) == Ok::<Content, Error>(Content::Points(points)),
{
    chimp::lemma_block_roundtrip(points);
}

/// Every Chimp128 block decodes to the points it was written from.
pub proof fn lemma_chimp128_lossless(points: Seq<Point>, block: Seq<u8>)
    requires
        points.len() <= u32::MAX,
        frames(block, TAG_CHIMP128, chimp128::block_bits(points)),
    ensures
        decode_spec(block) == Ok::<Content, Error>(Content::Points(points)),
{
    chimp128::lemma_block_roundtrip(points);
}

/// Every decimal block decodes to its scale and the scaled points it was written from.
pub proof fn lemma_decimal_lossless(scale: u8, points: Seq<ScaledPoint>, block: Seq<u8>)
    requires
        points.len() <= u32::MAX,
        scale <= decimal::MAX_SCALE,
        frames(block, TAG_DECIMAL, decimal::block_bits(scale, points)),
    ensures
        decode_spec(block) == Ok::<Content, Error>(Content::Scaled(scale, points)),
{
    decimal::lemma_block_roundtrip(scale, points);
}

/// The first `cut` bytes of a framed block, when there is more than the tag: the same tag,
/// and a body carrying a part of the bit stream that stops short of its last bit.
proof fn lemma_cut_block(block: Seq<u8>, tag: u8, bits: Seq<bool>, cut: int)
    requires
        frames(block, tag, bits),
        bits.len() >= 1,
        1 <= cut < block.len(),
    ensures
        block.take(cut).len() >= 1,
        block.take(cut)[0] == tag,
        stream_of(block.take(cut).skip(1)) == padded(bits).take(8 * (cut - 1)),
        0 <= 8 * (cut - 1) < bits.len(),
{
    lemma_framed_len(block, tag, bits);
    assert(block.take(cut).skip(1) =~= block.skip(1).take(cut - 1));
    lemma_stream_prefix(block.skip(1), cut - 1);
    assert(8 * ((bits.len() + 7) / 8) <= bits.len() + 7);
}

/// A Gorilla block cut anywhere before its last byte does not decode, not even to fewer
/// points: the stream ends mid-value.
pub proof fn lemma_gorilla_truncated(points: Seq<Point>, block: Seq<u8>, cut: int)
    requires
        points.len() <= u32::MAX,
        frames(block, TAG_GORILLA, gorilla::block_bits(points)),
        0 <= cut < block.len(),
    ensures
        decode_spec(block.take(cut)) == Err::<Content, Error>(Error::UnexpectedEnd),
{
    if cut > 0 {
        lemma_cut_block(block, TAG_GORILLA, gorilla::block_bits(points), cut);
        gorilla::lemma_block_prefix(points, 8 * (cut - 1));
    }
}

/// A Chimp block cut anywhere before its last byte does not decode, not even to fewer points:
/// the stream ends mid-value.
pub proof fn lemma_chimp_truncated(points: Seq<Point>, block: Seq<u8>, cut: int)
    requires
        points.len() <= u32::MAX,
        frames(block, TAG_CHIMP, chimp::block_bits(points)),
        0 <= cut < block.len(),
    ensures
        decode_spec(block.take(cut)) == Err::<Content, Error>(Error::UnexpectedEnd),
{
    if cut > 0 {
        lemma_cut_block(block, TAG_CHIMP, chimp::block_bits(points), cut);
        chimp::lemma_block_prefix(points, 8 * (cut - 1));
    }
}

/// A Chimp128 block cut anywhere before its last byte does not decode, not even to fewer
/// points: the stream ends mid-value.
pub proof fn lemma_chimp128_truncated(points: Seq<Point>, block: Seq<u8>, cut: int)
    requires
        points.len() <= u32::MAX,
        frames(block, TAG_CHIMP128, chimp128::block_bits(points)),
        0 <= cut < block.len(),
    ensures
        decode_spec(block.take(cut)) == Err::<Content, Error>(Error::UnexpectedEnd),
{
    if cut > 0 {
        lemma_cut_block(block, TAG_CHIMP128, chimp128::block_bits(points), cut);
        chimp128::lemma_block_prefix(points, 8 * (cut - 1));
    }
}

/// A decimal block cut anywhere before its last byte does not decode, not even to fewer
/// points: the stream ends mid-value.
pub proof fn lemma_decimal_truncated(scale: u8, points: Seq<ScaledPoint>, block: Seq<u8>, cut: int)
    requires
        points.len() <= u32::MAX,
        scale <= decimal::MAX_SCALE,
        frames(block, TAG_DECIMAL, decimal::block_bits(scale, points)),
        0 <= cut < block.len(),
    ensures
        decode_spec(block.take(cut)) == Err::<Content, Error>(Error::UnexpectedEnd),
{
    if cut > 0 {
        lemma_cut_block(block, TAG_DECIMAL, decimal::block_bits(scale, points), cut);
        decimal::lemma_block_prefix(scale, points, 8 * (cut - 1));
    }
}

} // verus!
