//! Delta-of-delta, shared by every codec for timestamps and by the decimal codec for values.
//!
//! The widest bucket is 64 bits so an arbitrary gap never needs a special case.
use vstd::arithmetic::power2::pow2;
use vstd::prelude::*;

use crate::bits::{
    lemma_take_bit_prefix, lemma_take_bits_prefix,
    lemma_signed_word, lemma_word_facts,
    bits_of, fits_in, fits_signed, lemma_bits_of_max, lemma_take_bits_of,
    lemma_twos_complement_of_fitting, low_mask, ones, sign_extend, starts_with, take_bit,
    take_bits, twos_complement, BitReader, BitWriter,
};
use crate::error::Error;

verus! {

/// Three prefixed buckets, then an escape: the natural two's complement ranges of 7, 9 and
/// 12 bits rather than the off-by-one ranges printed in the Gorilla paper.
pub open spec fn bucket_width(index: int) -> nat {
    if index == 0 {
        7
    } else if index == 1 {
        9
    } else {
        12
    }
}

/// How many one bits announce the 64-bit escape.
pub const ESCAPE: u32 = 4;

/// A non-zero value in the first bucket from `index` on whose range holds it.
pub open spec fn bucket_bits(d: i64, index: nat) -> Seq<bool>
    decreases 3 - index,
{
    if index >= 3 {
        ones(4) + bits_of(d as u64, 64)
    } else if fits_signed(d as int, bucket_width(index as int)) {
        ones(index + 1) + seq![false] + bits_of(d as u64, bucket_width(index as int))
    } else {
        bucket_bits(d, index + 1)
    }
}

/// The encoding of one delta-of-delta: `0` for zero, otherwise `index + 1` ones, a zero and the
/// value in that bucket's width, or four ones and all 64 bits.
#[verifier::opaque]
pub open spec fn dod_bits(d: i64) -> Seq<bool> {
    if d == 0 {
        seq![false]
    } else {
        bucket_bits(d, 0)
    }
}

/// Counting the one bits of a prefix, starting from `n` already counted, up to the escape.
pub open spec fn count_ones(s: Seq<bool>, pos: int, n: nat) -> Result<(nat, int), Error>
    decreases 4 - n,
{
    if n >= 4 {
        Ok((n, pos))
    } else {
        match take_bit(s, pos) {
            Err(e) => Err(e),
            Ok((b, next)) => if b {
                count_ones(s, next, n + 1)
            } else {
                Ok((n, next))
            },
        }
    }
}

/// Reading one delta-of-delta at `pos`.
#[verifier::opaque]
pub open spec fn dod_parse(s: Seq<bool>, pos: int) -> Result<(i64, int), Error> {
    match count_ones(s, pos, 0) {
        Err(e) => Err(e),
        Ok((n, next)) => if n == 0 {
            Ok((0, next))
        } else if n >= 4 {
            match take_bits(s, next, 64) {
                Err(e) => Err(e),
                Ok((v, after)) => Ok((v as i64, after)),
            }
        } else {
            let width = bucket_width(n - 1);
            match take_bits(s, next, width) {
                Err(e) => Err(e),
                Ok((v, after)) => Ok((twos_complement(v, width) as i64, after)),
            }
        },
    }
}

proof fn lemma_dod_bits_len(d: i64, index: nat)
    requires
        index <= 3,
    ensures
        bucket_bits(d, index).len() <= 68,
    decreases 3 - index,
{
    if index < 3 && !fits_signed(d as int, bucket_width(index as int)) {
        lemma_dod_bits_len(d, index + 1);
    }
}

/// At most 68 bits: the escape prefix and a full word.
pub proof fn lemma_dod_len(d: i64)
    ensures
        dod_bits(d).len() <= 68,
{
    reveal(dod_bits);
    if d != 0 {
        lemma_dod_bits_len(d, 0);
    }
}

proof fn lemma_count_ones_grows(s: Seq<bool>, pos: int, n: nat)
    requires
        pos <= s.len(),
    ensures
        match count_ones(s, pos, n) {
            Ok((m, p)) => pos <= p <= s.len(),
            Err(_) => true,
        },
    decreases 4 - n,
{
    if n < 4 && pos + 1 <= s.len() && s[pos] {
        lemma_count_ones_grows(s, pos + 1, n + 1);
    }
}

proof fn lemma_count_ones_prefix(s: Seq<bool>, len: int, pos: int, n: nat)
    requires
        0 <= len <= s.len(),
        0 <= pos <= len,
    ensures
        match count_ones(s, pos, n) {
            Ok((m, p)) => pos <= p <= s.len() && count_ones(s.take(len), pos, n) == if p <= len {
                Ok::<(nat, int), Error>((m, p))
            } else {
                Err::<(nat, int), Error>(Error::UnexpectedEnd)
            },
            Err(_) => true,
        },
    decreases 4 - n,
{
    if n < 4 {
        lemma_take_bit_prefix(s, len, pos);
        let t = s.take(len);
        if pos + 1 <= s.len() {
            if pos + 1 <= len {
                assert(t[pos] == s[pos]);
            }
            if s[pos] {
                lemma_count_ones_grows(s, pos + 1, n + 1);
                if pos + 1 <= len {
                    lemma_count_ones_prefix(s, len, pos + 1, n + 1);
                }
            }
        }
    }
}

/// Reading a delta-of-delta from a prefix of a stream gives what the whole stream gives when
/// its bits lie inside the prefix, and runs out of stream otherwise.
pub proof fn lemma_dod_parse_prefix(s: Seq<bool>, len: int, pos: int)
    requires
        0 <= len <= s.len(),
        0 <= pos <= len,
    ensures
        match dod_parse(s, pos) {
            Ok((d, p)) => pos <= p <= s.len() && dod_parse(s.take(len), pos) == if p <= len {
                Ok::<(i64, int), Error>((d, p))
            } else {
                Err::<(i64, int), Error>(Error::UnexpectedEnd)
            },
            Err(_) => true,
        },
{
    reveal(dod_parse);
    lemma_count_ones_prefix(s, len, pos, 0);
    match count_ones(s, pos, 0) {
        Ok((n, next)) => {
            if n >= 4 {
                lemma_take_bits_prefix(s, len, next, 64);
            } else if n > 0 {
                lemma_take_bits_prefix(s, len, next, bucket_width(n - 1));
            }
        },
        Err(_) => {},
    }
}

/// What one delta-of-delta costs: a single bit for zero, so a steady sampling interval costs
/// one bit per point; 9, 12 and 16 bits in the 7-, 9- and 12-bit buckets; 68 bits for any
/// other value, so an arbitrary gap always fits.
pub proof fn lemma_dod_cost(d: i64)
    ensures
        dod_bits(d).len() == if d == 0 {
            1nat
        } else if -64 <= d < 64 {
            9
        } else if -256 <= d < 256 {
            12
        } else if -2048 <= d < 2048 {
            16
        } else {
            68
        },
{
    reveal(dod_bits);
    vstd::arithmetic::power2::lemma2_to64();
    assert(pow2(6) == 64 && pow2(8) == 256 && pow2(11) == 2048);
    if d != 0 {
        if !fits_signed(d as int, 7) {
            assert(bucket_bits(d, 0) == bucket_bits(d, 1));
            if !fits_signed(d as int, 9) {
                assert(bucket_bits(d, 1) == bucket_bits(d, 2));
                if !fits_signed(d as int, 12) {
                    assert(bucket_bits(d, 2) == bucket_bits(d, 3));
                }
            }
        }
    }
}

fn bucket(index: u32) -> (w: u32)
    requires
        index < 3,
    ensures
        w == bucket_width(index as int),
{
    if index == 0 {
        7
    } else if index == 1 {
        9
    } else {
        12
    }
}

pub fn write(w: &mut BitWriter, dod: i64)
    requires
        old(w).wf(),
        old(w)@.len() + 80 < usize::MAX,
    ensures
        final(w).wf(),
        final(w)@ == old(w)@ + dod_bits(dod),
{
    proof {
        reveal(dod_bits);
    }
    if dod == 0 {
        w.write_bit(false);
        return;
    }
    let mut index: u32 = 0;
    while index < 3
        invariant
            w.wf(),
            w@ == old(w)@,
            old(w)@.len() + 80 < usize::MAX,
            dod != 0,
            index <= 3,
            bucket_bits(dod, 0) == bucket_bits(dod, index as nat),
        decreases 3 - index,
    {
        proof {
            reveal(dod_bits);
        }
        let width = bucket(index);
        if fits_in(dod, width) {
            w.write_bits(u64::MAX, index + 1);
            w.write_bit(false);
            w.write_bits(dod as u64, width);
            proof {
                lemma_bits_of_max((index + 1) as nat);
                assert(w@ =~= old(w)@ + dod_bits(dod));
            }
            return;
        }
        index += 1;
    }
    w.write_bits(u64::MAX, ESCAPE);
    w.write_bits(dod as u64, 64);
    proof {
        lemma_bits_of_max(4);
        assert(w@ =~= old(w)@ + dod_bits(dod));
    }
}

pub fn read(r: &mut BitReader) -> (res: Result<i64, Error>)
    requires
        old(r).wf(),
    ensures
        final(r).wf(),
        final(r).stream() == old(r).stream(),
        match dod_parse(old(r).stream(), old(r).pos()) {
            Ok((v, next)) => res == Ok::<i64, Error>(v) && final(r).pos() == next,
            Err(e) => res == Err::<i64, Error>(e),
        },
{
    proof {
        reveal(dod_parse);
    }
    let mut leading_ones = 0u32;
    loop
        invariant_except_break
            count_ones(old(r).stream(), old(r).pos(), 0) == count_ones(
                r.stream(),
                r.pos(),
                leading_ones as nat,
            ),
        invariant
            r.wf(),
            r.stream() == old(r).stream(),
            leading_ones <= ESCAPE,
        ensures
            count_ones(old(r).stream(), old(r).pos(), 0) == Ok::<(nat, int), Error>(
                (leading_ones as nat, r.pos()),
            ),
        decreases ESCAPE - leading_ones,
    {
        proof {
            reveal(dod_parse);
        }
        if leading_ones >= ESCAPE {
            break;
        }
        let bit = r.read_bit()?;
        if !bit {
            break;
        }
        leading_ones += 1;
    }
    if leading_ones == 0 {
        return Ok(0);
    }
    if leading_ones == ESCAPE {
        return Ok(r.read_bits(64)? as i64);
    }
    let width = bucket(leading_ones - 1);
    Ok(sign_extend(r.read_bits(width)?, width))
}

proof fn lemma_count_ones(s: Seq<bool>, pos: int, n: nat, k: nat, stop: bool)
    requires
        n + k <= 4,
        stop ==> n + k < 4,
        starts_with(s, pos, if stop { ones(k) + seq![false] } else { ones(k) }),
        !stop ==> n + k == 4,
    ensures
        count_ones(s, pos, n) == Ok::<(nat, int), Error>(
            (n + k, if stop { pos + k + 1 } else { pos + k }),
        ),
    decreases k,
{
    let seg = if stop { ones(k) + seq![false] } else { ones(k) };
    if k > 0 {
        assert(s[pos] == s.subrange(pos, pos + seg.len())[0]);
        assert(s[pos] == seg[0]);
        let rest = if stop { ones((k - 1) as nat) + seq![false] } else { ones((k - 1) as nat) };
        assert(s.subrange(pos + 1, pos + 1 + rest.len()) =~= rest) by {
            assert forall|i: int| 0 <= i < rest.len() implies #[trigger] s.subrange(
                pos + 1,
                pos + 1 + rest.len(),
            )[i] == rest[i] by {
                assert(s[pos + 1 + i] == s.subrange(pos, pos + seg.len())[1 + i]);
            }
        }
        lemma_count_ones(s, pos + 1, n + 1, (k - 1) as nat, stop);
    } else if stop {
        assert(s[pos] == s.subrange(pos, pos + seg.len())[0]);
        assert(s[pos] == seg[0]);
    }
}

/// Reading back a written delta-of-delta gives the same value and stops right after it.
pub proof fn lemma_dod_roundtrip(s: Seq<bool>, pos: int, d: i64)
    requires
        starts_with(s, pos, dod_bits(d)),
    ensures
        dod_parse(s, pos) == Ok::<(i64, int), Error>((d, pos + dod_bits(d).len())),
{
    reveal(dod_parse);
    reveal(dod_bits);
    if d == 0 {
        lemma_count_ones(s, pos, 0, 0, true);
        assert(ones(0) + seq![false] =~= seq![false]);
    } else {
        lemma_dod_bucket_roundtrip(s, pos, d, 0);
    }
}

proof fn lemma_dod_bucket_roundtrip(s: Seq<bool>, pos: int, d: i64, index: nat)
    requires
        index <= 3,
        starts_with(s, pos, bucket_bits(d, index)),
        forall|i: int| 0 <= i < index ==> !fits_signed(d as int, #[trigger] bucket_width(i)),
    ensures
        dod_parse(s, pos) == Ok::<(i64, int), Error>((d, pos + bucket_bits(d, index).len())),
    decreases 3 - index,
{
    reveal(dod_parse);
    let seg = bucket_bits(d, index);
    if index >= 3 {
        let head = ones(4);
        let body = bits_of(d as u64, 64);
        assert(seg == head + body);
        assert(s.subrange(pos, pos + 4) =~= head) by {
            assert forall|i: int| 0 <= i < 4 implies #[trigger] s.subrange(pos, pos + 4)[i] == head[i] by {
                assert(s.subrange(pos, pos + seg.len())[i] == seg[i]);
            }
        }
        assert(s.subrange(pos + 4, pos + 4 + 64) =~= body) by {
            assert forall|i: int| 0 <= i < 64 implies #[trigger] s.subrange(pos + 4, pos + 4 + 64)[i] == body[i] by {
                assert(s.subrange(pos, pos + seg.len())[4 + i] == seg[4 + i]);
            }
        }
        lemma_count_ones(s, pos, 0, 4, false);
        lemma_take_bits_of(s, pos + 4, d as u64, 64);
        lemma_word_facts(d as u64);
        lemma_signed_word(d);
    } else if fits_signed(d as int, bucket_width(index as int)) {
        let width = bucket_width(index as int);
        let head = ones(index + 1) + seq![false];
        let body = bits_of(d as u64, width);
        assert(seg == head + body);
        let hl = index + 2;
        assert(s.subrange(pos, pos + hl) =~= head) by {
            assert forall|i: int| 0 <= i < hl implies #[trigger] s.subrange(pos, pos + hl)[i] == head[i] by {
                assert(s.subrange(pos, pos + seg.len())[i] == seg[i]);
            }
        }
        assert(s.subrange(pos + hl, pos + hl + width) =~= body) by {
            assert forall|i: int| 0 <= i < width implies #[trigger] s.subrange(pos + hl, pos + hl + width)[i] == body[i] by {
                assert(s.subrange(pos, pos + seg.len())[hl + i] == seg[hl + i]);
            }
        }
        lemma_count_ones(s, pos, 0, index + 1, true);
        lemma_take_bits_of(s, pos + hl, d as u64, width);
        lemma_twos_complement_of_fitting(d, width);
    } else {
        assert forall|i: int| 0 <= i < index + 1 implies !fits_signed(d as int, #[trigger] bucket_width(i)) by {
            if i < index {
            }
        }
        lemma_dod_bucket_roundtrip(s, pos, d, index + 1);
    }
}

} // verus!
