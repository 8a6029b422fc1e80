//! Bit-level writer and reader. Bits are written most significant first, and the last byte
//! of a finished buffer is zero-padded.
use vstd::arithmetic::power2::pow2;
use vstd::std_specs::bits::{
    axiom_u64_leading_zeros, axiom_u64_trailing_zeros, u64_leading_zeros, u64_trailing_zeros,
};
use vstd::prelude::*;

use crate::error::Error;

verus! {

/// Bit `j` of a byte, counting from the most significant (`j == 0`).
pub open spec fn byte_bit(b: u8, j: int) -> bool {
    ((b as u64) >> ((7 - j) as u64)) & 1 == 1
}

/// The bit stream a byte buffer carries: each byte's bits, most significant first.
pub open spec fn stream_of(bytes: Seq<u8>) -> Seq<bool> {
    Seq::new(8 * bytes.len(), |i: int| byte_bit(bytes[i / 8], i % 8))
}

/// Bit `i` of a word, counting from the least significant (`i == 0`).
pub open spec fn bit(v: u64, i: int) -> bool {
    (v >> (i as u64)) & 1 == 1
}

/// The low `n` bits of `v`, most significant first.
pub open spec fn bits_of(v: u64, n: nat) -> Seq<bool> {
    Seq::new(n, |k: int| bit(v, n - 1 - k))
}

/// No bit of `v` is set at or above position `n`.
pub open spec fn fits_bits(v: u64, n: nat) -> bool {
    n >= 64 || v >> (n as u64) == 0
}

/// All ones below bit `n`.
pub open spec fn low_mask(n: nat) -> u64 {
    if n >= 64 {
        u64::MAX
    } else {
        ((1u64 << (n as u64)) - 1) as u64
    }
}

/// The word whose low bits are `s`, most significant first; bits beyond 64 fall off the top.
pub open spec fn from_bits(s: Seq<bool>) -> u64
    decreases s.len(),
{
    if s.len() == 0 {
        0
    } else {
        (from_bits(s.drop_last()) << 1u64) | (if s.last() {
            1u64
        } else {
            0u64
        })
    }
}

/// A buffer's bits followed by the zero bits that fill out its last byte.
pub open spec fn padded(bits: Seq<bool>) -> Seq<bool> {
    bits + Seq::new(((8 - bits.len() % 8) % 8) as nat, |i: int| false)
}

/// Reading `n` bits at `pos`: their value and the position after them, or the end of the stream.
pub open spec fn take_bits(s: Seq<bool>, pos: int, n: nat) -> Result<(u64, int), Error> {
    if pos + n > s.len() {
        Err(Error::UnexpectedEnd)
    } else {
        Ok((from_bits(s.subrange(pos, pos + n)), pos + n))
    }
}

/// Reading one bit at `pos`.
pub open spec fn take_bit(s: Seq<bool>, pos: int) -> Result<(bool, int), Error> {
    if pos + 1 > s.len() {
        Err(Error::UnexpectedEnd)
    } else {
        Ok((s[pos], pos + 1))
    }
}

/// LEB128: seven payload bits per byte, least significant group first, the high bit set on
/// every byte but the last.
pub open spec fn varint_bits(v: u64) -> Seq<bool>
    decreases v,
{
    if v >> 7u64 == 0 {
        bits_of(v & 0x7f, 8)
    } else {
        proof {
            lemma_word_facts(v);
        }
        bits_of((v & 0x7f) | 0x80, 8) + varint_bits(v >> 7u64)
    }
}

/// Reading a varint whose next group lands at bit `shift` of `acc`. A tenth group still with
/// its continuation bit set makes the varint malformed.
pub open spec fn varint_from(s: Seq<bool>, pos: int, shift: nat, acc: u64) -> Result<(u64, int), Error>
    decreases 70 - shift,
{
    if shift >= 64 {
        Err(Error::MalformedBlock)
    } else {
        match take_bits(s, pos, 8) {
            Err(e) => Err(e),
            Ok((group, next)) => {
                let acc2 = acc | ((group & 0x7f) << (shift as u64));
                if group & 0x80 == 0 {
                    Ok((acc2, next))
                } else {
                    varint_from(s, next, shift + 7, acc2)
                }
            },
        }
    }
}

/// Reading from a prefix of a stream reads the same bits while they lie inside the prefix,
/// and runs out of stream past it.
pub broadcast proof fn lemma_take_bits_prefix(s: Seq<bool>, len: int, pos: int, n: nat)
    requires
        0 <= len <= s.len(),
        0 <= pos,
    ensures
        #[trigger] take_bits(s.take(len), pos, n) == if pos + n <= len {
            take_bits(s, pos, n)
        } else {
            Err::<(u64, int), Error>(Error::UnexpectedEnd)
        },
{
    if pos + n <= len {
        assert(s.take(len).subrange(pos, pos + n) =~= s.subrange(pos, pos + n));
    }
}

/// One bit read from a prefix of a stream, as `lemma_take_bits_prefix` says for several.
pub broadcast proof fn lemma_take_bit_prefix(s: Seq<bool>, len: int, pos: int)
    requires
        0 <= len <= s.len(),
        0 <= pos,
    ensures
        #[trigger] take_bit(s.take(len), pos) == if pos + 1 <= len {
            take_bit(s, pos)
        } else {
            Err::<(bool, int), Error>(Error::UnexpectedEnd)
        },
{
}

/// The bytes of a prefix of a buffer carry a prefix of its stream.
pub proof fn lemma_stream_prefix(bytes: Seq<u8>, m: int)
    requires
        0 <= m <= bytes.len(),
    ensures
        stream_of(bytes.take(m)) == stream_of(bytes).take(8 * m),
{
    assert(stream_of(bytes.take(m)) =~= stream_of(bytes).take(8 * m));
}

/// Facts about a single word, settled by the bit-vector solver.
pub proof fn lemma_word_facts(v: u64)
    by (bit_vector)
    ensures
        v >> 0u64 == v,
        v << 0u64 == v,
        v ^ 0u64 == v,
        v | 0u64 == v,
        0u64 | v == v,
        v & 0u64 == 0,
        v & 0xffff_ffff_ffff_ffffu64 == v,
        v >> 7u64 != 0 ==> v >> 7u64 < v,
        v < 128 ==> v >> 7u64 == 0,
        v >> 63u64 < 128,
        v & 0x3fff <= 0x3fff,
        v & 1 <= 1,
        (v & 1 == 0) == (v % 2 == 0),
        v >> 1u64 == v / 2,
        (if (v >> 0u64) & 1 == 1 {
            1u64
        } else {
            0u64
        }) == v & 1,
        v & 0x3f < 64,
        v < 64 ==> v & 0x3f == v,
        1 <= v <= 64 ==> (((v & 0x3f) == 0) == (v == 64)),
{
}

/// A signed word survives the round trip through its unsigned bit pattern.
pub proof fn lemma_signed_word(t: i64)
    by (bit_vector)
    ensures
        (t as u64) as i64 == t,
        t < 0 ==> (t as u64) as int == t + 0x1_0000_0000_0000_0000int,
        t >= 0 ==> (t as u64) as int == t as int,
{
}

/// Small powers of two as shifts.
pub proof fn lemma_small_powers()
    by (bit_vector)
    ensures
        1u64 << 2u64 == 4,
        1u64 << 3u64 == 8,
        1u64 << 5u64 == 32,
        1u64 << 6u64 == 64,
        1u64 << 7u64 == 128,
        1u64 << 8u64 == 256,
        1u64 << 32u64 == 0x1_0000_0000,
        ((1u64 << 0u64) - 1) as u64 == 0,
        ((1u64 << 8u64) - 1) as u64 == 0xff,
{
}

/// A word fits `n` bits exactly when masking to them changes nothing, and for `n < 64`
/// exactly when it is below `2^n`.
pub proof fn lemma_fitting_mask(v: u64, n: u64)
    by (bit_vector)
    requires
        n <= 64,
    ensures
        (n >= 64 || v >> n == 0) == (v & (if n >= 64 {
            0xffff_ffff_ffff_ffffu64
        } else {
            ((1u64 << n) - 1) as u64
        }) == v),
        n < 64 ==> ((v >> n == 0) == (v < (1u64 << n))),
        n < 64 ==> (1u64 << n) >= 1,
{
}

/// Two shifts down read the same bit as one.
pub proof fn lemma_shr_shr(v: u64, a: u64, b: u64)
    by (bit_vector)
    requires
        a + b < 64,
    ensures
        ((v >> a) >> b) & 1 == (v >> ((a + b) as u64)) & 1,
{
}

/// Shifting down by one or by seven, then by `b`, is shifting down once.
pub proof fn lemma_shr_then(v: u64, b: u64)
    by (bit_vector)
    ensures
        b < 63 ==> (v >> 1u64) >> b == v >> ((b + 1) as u64),
        b < 57 ==> (v >> 7u64) >> b == v >> ((b + 7) as u64),
{
}

/// XOR with the same word twice gives the starting word back.
pub proof fn lemma_xor_facts(a: u64, b: u64)
    by (bit_vector)
    ensures
        a ^ (a ^ b) == b,
        a ^ (b ^ a) == b,
        (a ^ b) ^ a == b,
        (b ^ a) ^ a == b,
        (a ^ b == 0) == (a == b),
        (b ^ a == 0) == (a == b),
{
}

proof fn lemma_varint_group(w: u64, shift: u64, acc: u64)
    by (bit_vector)
    requires
        shift < 64,
        (w << shift) >> shift == w,
        acc >> shift == 0,
    ensures
        w >> 7u64 == 0 ==> ((w & 0x7f) & 0xff) & 0x80 == 0 && acc | ((((w & 0x7f) & 0xff) & 0x7f)
            << shift) == acc | (w << shift),
        w >> 7u64 != 0 ==> {
            &&& shift < 57
            &&& (((w & 0x7f) | 0x80) & 0xff) & 0x80 != 0
            &&& (((w & 0x7f) | 0x80) & 0xff) & 0x7f == w & 0x7f
            &&& w >> 7u64 < w
            &&& ((w >> 7u64) << ((shift + 7) as u64)) >> ((shift + 7) as u64) == w >> 7u64
            &&& (acc | ((w & 0x7f) << shift)) >> ((shift + 7) as u64) == 0
            &&& (acc | ((w & 0x7f) << shift)) | ((w >> 7u64) << ((shift + 7) as u64)) == acc | (w
                << shift)
        },
{
}

proof fn lemma_varint_len(v: u64, k: nat)
    requires
        k <= 9,
        v >> ((7 * k) as u64) < 128,
    ensures
        varint_bits(v).len() <= 8 * (k + 1),
    decreases k,
{
    if v >> 7u64 != 0 {
        if k == 0 {
            lemma_word_facts(v);
        } else {
            let kk = (7 * k) as u64;
            lemma_shr_then(v, (kk - 7) as u64);
            lemma_varint_len(v >> 7u64, (k - 1) as nat);
        }
    }
}

proof fn lemma_low_mask_8()
    ensures
        low_mask(8) == 0xffu64,
{
    lemma_small_powers();
}

proof fn lemma_fits_step(x: u64, k: u64, b: u64)
    by (bit_vector)
    requires
        k < 64,
        x >> k == 0,
        b <= 1,
    ensures
        k + 1 < 64 ==> ((x << 1u64) | b) >> ((k + 1) as u64) == 0,
{
}

/// A word read from `n` bits has no bit set above them.
pub proof fn lemma_from_bits_fits(s: Seq<bool>)
    requires
        s.len() <= 64,
    ensures
        fits_bits(from_bits(s), s.len()),
    decreases s.len(),
{
    if s.len() == 0 {
        lemma_word_facts(0);
    } else if s.len() < 64 {
        lemma_from_bits_fits(s.drop_last());
        lemma_fits_step(
            from_bits(s.drop_last()),
            (s.len() - 1) as u64,
            if s.last() {
                1u64
            } else {
                0u64
            },
        );
    }
}

proof fn lemma_window_bv(x: u64, l: u64, t: u64, lz: u64, tz: u64)
    by (bit_vector)
    requires
        l <= lz <= 64,
        t <= tz <= 64,
        l + t <= 63,
        x >> ((64 - lz) as u64) == 0,
        x << ((64 - tz) as u64) == 0,
    ensures
        (x >> t) & (if 64 - l - t >= 64 {
            0xffff_ffff_ffff_ffffu64
        } else {
            ((1u64 << ((64 - l - t) as u64)) - 1) as u64
        }) == x >> t,
        (x >> t) << t == x,
{
}

/// A non-zero word has its highest set bit at or above its lowest.
pub proof fn lemma_zero_runs(x: u64)
    requires
        x != 0,
    ensures
        0 <= u64_leading_zeros(x) <= 63,
        u64_trailing_zeros(x) <= 63,
        u64_leading_zeros(x) + u64_trailing_zeros(x) <= 63,
{
    axiom_u64_leading_zeros(x);
    axiom_u64_trailing_zeros(x);
    let lz = u64_leading_zeros(x);
    let tz = u64_trailing_zeros(x);
    if lz + tz > 63 {
        let j = (63 - lz) as u64;
        assert((x >> j) & 1u64 == 0u64);
    }
}

/// The bits of a non-zero word between `l` leading and `t` trailing positions, no more zeros
/// than it has at either end, hold the whole word: shifted down they fit the window, and
/// shifted back they restore it.
pub proof fn lemma_significant_window(x: u64, l: nat, t: nat)
    requires
        x != 0,
        l <= u64_leading_zeros(x),
        t <= u64_trailing_zeros(x),
    ensures
        l + t <= 63,
        (x >> (t as u64)) & low_mask((64 - l - t) as nat) == x >> (t as u64),
        fits_bits(x >> (t as u64), (64 - l - t) as nat),
        (x >> (t as u64)) << (t as u64) == x,
{
    lemma_zero_runs(x);
    axiom_u64_leading_zeros(x);
    axiom_u64_trailing_zeros(x);
    let lz = u64_leading_zeros(x) as u64;
    let tz = u64_trailing_zeros(x) as u64;
    lemma_window_bv(x, l as u64, t as u64, lz, tz);
    let y = x >> (t as u64);
    let w = (64 - l - t) as u64;
    lemma_fitting_mask(y, w);
}

/// `n` one bits.
pub open spec fn ones(n: nat) -> Seq<bool> {
    Seq::new(n, |i: int| true)
}

/// Writing the low bits of an all-ones word writes ones.
pub proof fn lemma_bits_of_max(n: nat)
    requires
        n <= 64,
    ensures
        bits_of(u64::MAX, n) == ones(n),
{
    assert forall|k: int| 0 <= k < n implies #[trigger] bits_of(u64::MAX, n)[k] == ones(n)[k] by {
        let s = (n - 1 - k) as u64;
        assert(s < 64 ==> (0xffff_ffff_ffff_ffffu64 >> s) & 1 == 1) by (bit_vector);
    }
    assert(bits_of(u64::MAX, n) =~= ones(n));
}

/// The low `bits` bits of a value that fits them, read back as two's complement, are the value.
pub proof fn lemma_twos_complement_of_fitting(d: i64, w: nat)
    requires
        1 <= w < 64,
        fits_signed(d as int, w),
    ensures
        twos_complement((d as u64) & low_mask(w), w) == d,
{
    let ww = w as u64;
    lemma_low_bits(d as u64, ww);
    assert(low_mask(w) == (((1u64 << ww) - 1) as u64));
    vstd::arithmetic::power2::lemma_pow2_adds(w, (64 - w) as nat);
    vstd::arithmetic::power2::lemma_pow2_adds((w - 1) as nat, 1);
    vstd::arithmetic::power2::lemma_pow2_pos(w);
    vstd::arithmetic::power2::lemma2_to64();
    vstd::arithmetic::power2::lemma2_to64_rest();
    vstd::arithmetic::power2::lemma_pow2_pos((64 - w) as nat);
    let m = pow2(w) as int;
    if d >= 0 {
        assert((d as u64) as nat == d);
        vstd::arithmetic::div_mod::lemma_small_mod(d as nat, pow2(w));
    } else {
        lemma_signed_word(d);
        assert(0x1_0000_0000_0000_0000int == m * (pow2((64 - w) as nat) as int));
        vstd::arithmetic::div_mod::lemma_mod_multiples_vanish(
            pow2((64 - w) as nat) as int - 1,
            d + m,
            m,
        );
        assert(m * (pow2((64 - w) as nat) as int - 1) + (d + m) == (d as u64) as int) by (nonlinear_arith)
            requires
                (d as u64) as int == d + m * (pow2((64 - w) as nat) as int),
        ;
        vstd::arithmetic::div_mod::lemma_small_mod((d + m) as nat, m as nat);
    }
}

/// `seg` stands in `s` at `pos`.
pub open spec fn starts_with(s: Seq<bool>, pos: int, seg: Seq<bool>) -> bool {
    &&& 0 <= pos
    &&& pos + seg.len() <= s.len()
    &&& s.subrange(pos, pos + seg.len()) == seg
}

/// A concatenation stands in `s` exactly when its two parts stand there one after the other.
pub proof fn lemma_starts_with_concat(s: Seq<bool>, pos: int, a: Seq<bool>, b: Seq<bool>)
    requires
        starts_with(s, pos, a + b),
    ensures
        starts_with(s, pos, a),
        starts_with(s, pos + a.len(), b),
{
    let whole = s.subrange(pos, pos + a.len() + b.len());
    assert(whole == a + b);
    assert(s.subrange(pos, pos + a.len()) =~= a) by {
        assert forall|i: int| 0 <= i < a.len() implies #[trigger] s.subrange(pos, pos + a.len())[i]
            == a[i] by {
            assert(whole[i] == (a + b)[i]);
        }
    }
    assert(s.subrange(pos + a.len(), pos + a.len() + b.len()) =~= b) by {
        assert forall|i: int| 0 <= i < b.len() implies #[trigger] s.subrange(
            pos + a.len(),
            pos + a.len() + b.len(),
        )[i] == b[i] by {
            assert(whole[a.len() + i] == (a + b)[a.len() + i]);
        }
    }
}

/// A word read from `n` bits fits them.
pub proof fn lemma_take_bits_fits(s: Seq<bool>, pos: int, n: nat)
    requires
        n <= 64,
        0 <= pos,
    ensures
        take_bits(s, pos, n) matches Ok((v, _)) ==> fits_bits(v, n),
{
    if pos + n <= s.len() {
        lemma_from_bits_fits(s.subrange(pos, pos + n));
    }
}

/// Reading `n` bits where the low `n` bits of `v` were written gives them back.
pub proof fn lemma_take_bits_of(s: Seq<bool>, pos: int, v: u64, n: nat)
    requires
        n <= 64,
        starts_with(s, pos, bits_of(v, n)),
    ensures
        take_bits(s, pos, n) == Ok::<(u64, int), Error>((v & low_mask(n), pos + n)),
{
    lemma_from_bits_of(v, n);
}

proof fn lemma_varint_from(s: Seq<bool>, pos: int, w: u64, shift: u64, acc: u64)
    requires
        starts_with(s, pos, varint_bits(w)),
        shift < 64,
        shift % 7 == 0,
        (w << shift) >> shift == w,
        acc >> shift == 0,
    ensures
        varint_from(s, pos, shift as nat, acc) == Ok::<(u64, int), Error>(
            (acc | (w << shift), pos + varint_bits(w).len()),
        ),
    decreases w,
{
    lemma_varint_group(w, shift, acc);
    if w >> 7u64 == 0 {
        lemma_take_bits_of(s, pos, w & 0x7f, 8);
        lemma_low_mask_8();
    } else {
        let g = (w & 0x7f) | 0x80;
        let seg = bits_of(g, 8);
        let tail = varint_bits(w >> 7u64);
        assert(varint_bits(w) == seg + tail);
        assert(s.subrange(pos, pos + 8) == seg) by {
            assert(s.subrange(pos, pos + 8) =~= s.subrange(pos, pos + varint_bits(w).len()).subrange(0, 8));
            assert((seg + tail).subrange(0, 8) =~= seg);
        }
        assert(s.subrange(pos + 8, pos + 8 + tail.len()) == tail) by {
            assert(s.subrange(pos + 8, pos + 8 + tail.len()) =~= s.subrange(pos, pos + varint_bits(w).len()).subrange(8, (8 + tail.len()) as int));
            assert((seg + tail).subrange(8, (8 + tail.len()) as int) =~= tail);
        }
        lemma_take_bits_of(s, pos, g, 8);
        lemma_low_mask_8();
        let acc2 = acc | (((g & 0xff) & 0x7f) << shift);
        lemma_varint_from(s, pos + 8, w >> 7u64, (shift + 7) as u64, acc2);
    }
}

/// A varint reads back as the value that was written.
pub proof fn lemma_varint_roundtrip(s: Seq<bool>, pos: int, v: u64)
    requires
        starts_with(s, pos, varint_bits(v)),
    ensures
        varint_from(s, pos, 0, 0) == Ok::<(u64, int), Error>((v, pos + varint_bits(v).len())),
{
    lemma_word_facts(v);
    lemma_word_facts(0);
    lemma_varint_from(s, pos, v, 0, 0);
}

proof fn lemma_subrange_split(s: Seq<bool>, a: int, b: int, c: int)
    requires
        0 <= a <= b <= c <= s.len(),
    ensures
        s.subrange(a, b) + s.subrange(b, c) == s.subrange(a, c),
{
    assert(s.subrange(a, b) + s.subrange(b, c) =~= s.subrange(a, c));
}

proof fn lemma_mask_step(v: u64, n: u64)
    by (bit_vector)
    requires
        1 <= n <= 64,
    ensures
        ((((v >> 1u64) & (((1u64 << ((n - 1) as u64)) - 1) as u64)) << 1u64) | (v & 1)) == v & (
        if n >= 64 {
            0xffff_ffff_ffff_ffffu64
        } else {
            ((1u64 << n) - 1) as u64
        }),
{
}

/// Reading back the low `n` bits of `v` gives `v` with its higher bits cleared.
pub proof fn lemma_from_bits_of(v: u64, n: nat)
    requires
        n <= 64,
    ensures
        from_bits(bits_of(v, n)) == v & low_mask(n),
    decreases n,
{
    if n == 0 {
        lemma_small_powers();
        lemma_word_facts(v);
        assert(bits_of(v, n) =~= Seq::<bool>::empty());
    } else {
        assert(bits_of(v, n).drop_last() =~= bits_of(v >> 1u64, (n - 1) as nat)) by {
            assert forall|k: int| 0 <= k < n - 1 implies #[trigger] bits_of(v, n)[k] == bits_of(
                v >> 1u64,
                (n - 1) as nat,
            )[k] by {
                lemma_shr_then(v, (n - 2 - k) as u64);
            }
        }
        lemma_from_bits_of(v >> 1u64, (n - 1) as nat);
        lemma_word_facts(v);
        lemma_mask_step(v, n as u64);
    }
}

/// Bits of `v` read back from a buffer come out unchanged when `v` fits.
pub proof fn lemma_from_bits_of_fitting(v: u64, n: nat)
    requires
        n <= 64,
        fits_bits(v, n),
    ensures
        from_bits(bits_of(v, n)) == v,
{
    lemma_from_bits_of(v, n);
    let nn = n as u64;
    lemma_fitting_mask(v, nn);
}

proof fn lemma_concat_step(x: u64, y: u64, k: u64, b: u64)
    by (bit_vector)
    requires
        k < 64,
    ensures
        ((((x << k) | y) << 1u64) | b) == ((x << ((k + 1) as u64)) | ((y << 1u64) | b)),
{
}

/// Reading two runs of bits is reading the first, shifted up, and then the second.
pub proof fn lemma_from_bits_concat(s1: Seq<bool>, s2: Seq<bool>)
    requires
        s2.len() < 64,
    ensures
        from_bits(s1 + s2) == (from_bits(s1) << (s2.len() as u64)) | from_bits(s2),
    decreases s2.len(),
{
    if s2.len() == 0 {
        assert(s1 + s2 =~= s1);
        let x = from_bits(s1);
        lemma_word_facts(x);
    } else {
        let s2p = s2.drop_last();
        assert((s1 + s2).drop_last() =~= s1 + s2p);
        assert((s1 + s2).last() == s2.last());
        lemma_from_bits_concat(s1, s2p);
        lemma_concat_step(
            from_bits(s1),
            from_bits(s2p),
            s2p.len() as u64,
            if s2.last() {
                1u64
            } else {
                0u64
            },
        );
    }
}

/// A run taken out of the middle of `v`'s bits is the shifted-down word's low bits.
pub proof fn lemma_bits_of_subrange(v: u64, n: nat, o: nat, t: nat)
    requires
        o + t <= n <= 64,
    ensures
        bits_of(v, n).subrange(o as int, (o + t) as int) =~= bits_of(v >> ((n - o - t) as u64), t),
{
    assert forall|k: int| 0 <= k < t implies #[trigger] bits_of(v, n).subrange(
        o as int,
        (o + t) as int,
    )[k] == bits_of(v >> ((n - o - t) as u64), t)[k] by {
        lemma_shr_shr(v, (n - o - t) as u64, (t - 1 - k) as u64);
    }
}

proof fn lemma_set_byte_bit(b: u8, f: u64, j: u64)
    by (bit_vector)
    requires
        1 <= f <= 8,
        j < 8,
    ensures
        (((b | (1u8 << ((f - 1) as u8))) as u64 >> ((7 - j) as u64)) & 1 == 1) == (j == 8 - f || ((
        b as u64 >> ((7 - j) as u64)) & 1 == 1)),
{
}

proof fn lemma_zero_byte_bit(s: u64)
    by (bit_vector)
    ensures
        ((0u8 as u64) >> s) & 1 == 0,
{
}

proof fn lemma_write_chunk(b: u8, v: u64, left: u32, t: u32, f: u32, j: u64)
    by (bit_vector)
    requires
        1 <= t <= f <= 8,
        t <= left <= 64,
        j < 8,
    ensures
        ({
            let c = ((v >> ((left - t) as u32)) & (((1u64 << t) - 1) as u64)) as u8;
            let nb = b | (c << ((f - t) as u32));
            (((nb as u64) >> ((7 - j) as u64)) & 1 == 1) == if 8 - f <= j && j < 8 - f + t {
                (((b as u64) >> ((7 - j) as u64)) & 1 == 1) || ((v >> ((left + 7 - j - f) as u64))
                    & 1 == 1)
            } else {
                ((b as u64) >> ((7 - j) as u64)) & 1 == 1
            }
        }),
{
}

/// All ones below bit `bits`.
fn mask(bits: u32) -> (m: u64)
    ensures
        m == if bits >= 64 { u64::MAX } else { ((1u64 << bits) - 1) as u64 },
{
    if bits >= 64 {
        u64::MAX
    } else {
        proof {
            lemma_fitting_mask(0, bits as u64);
        }
        (1u64 << bits) - 1
    }
}

pub struct BitWriter {
    buf: Vec<u8>,
    free: u32,
}

impl View for BitWriter {
    type V = Seq<bool>;

    /// The bits written so far, without the padding of the last byte.
    closed spec fn view(&self) -> Seq<bool> {
        stream_of(self.buf@).take(8 * self.buf@.len() - self.free)
    }
}

impl BitWriter {
    /// The writer's buffer holds its bits followed by `free` zero bits of padding.
    pub closed spec fn wf(&self) -> bool {
        &&& self.free < 8
        &&& self.buf@.len() == 0 ==> self.free == 0
        &&& 8 * self.buf@.len() <= usize::MAX
        &&& forall|i: int|
            8 * self.buf@.len() - self.free <= i < 8 * self.buf@.len() ==> !stream_of(self.buf@)[i]
    }

    pub fn new() -> (w: Self)
        ensures
            w.wf(),
            w@ == Seq::<bool>::empty(),
    {
        BitWriter { buf: Vec::new(), free: 0 }
    }

    pub fn with_capacity(bytes: usize) -> (w: Self)
        ensures
            w.wf(),
            w@ == Seq::<bool>::empty(),
    {
        BitWriter { buf: Vec::with_capacity(bytes), free: 0 }
    }

    pub fn write_bit(&mut self, bit: bool)
        requires
            old(self).wf(),
            old(self)@.len() + 8 < usize::MAX,
        ensures
            final(self).wf(),
            final(self)@ == old(self)@.push(bit),
    {
        let ghost old_buf = self.buf@;
        let ghost old_len = self@.len();
        if self.free == 0 {
            self.buf.push(0);
            self.free = 8;
        }
        let ghost mid_buf = self.buf@;
        proof {
            assert(8 * mid_buf.len() - self.free == old_len);
            assert forall|i: int| 0 <= i < old_len implies stream_of(mid_buf)[i] == old(self)@[i] by {
                assert(i / 8 < old_buf.len());
            }
            assert forall|i: int| old_len <= i < 8 * mid_buf.len() implies !stream_of(mid_buf)[i] by {
                if i / 8 < old_buf.len() {
                } else {
                    assert(mid_buf[i / 8] == 0);
                    lemma_zero_byte_bit((7 - i % 8) as u64);
                }
            }
        }
        if bit {
            let last = self.buf.len() - 1;
            let b = self.buf[last] | (1u8 << (self.free - 1));
            self.buf.set(last, b);
            proof {
                assert forall|i: int| 0 <= i < 8 * mid_buf.len() implies #[trigger] stream_of(self.buf@)[i] == (
                i == old_len || stream_of(mid_buf)[i]) by {
                    if i / 8 == last {
                        lemma_set_byte_bit(mid_buf[last as int], self.free as u64, (i % 8) as u64);
                    }
                }
            }
        }
        assert(self.buf@.len() == mid_buf.len());
        assert forall|i: int| 0 <= i < 8 * mid_buf.len() implies #[trigger] stream_of(self.buf@)[i] == ((i
            == old_len && bit) || stream_of(mid_buf)[i]) by {
            if !bit {
                assert(self.buf@ == mid_buf);
            }
        }
        self.free = self.free - 1;
        proof {
            assert forall|i: int| 0 <= i < old_len + 1 implies self@[i] == old(self)@.push(bit)[i] by {}
            assert(self@ =~= old(self)@.push(bit));
        }
    }

    /// Appends the low `count` bits of `value`, most significant first.
    #[verifier::rlimit(40)]
    pub fn write_bits(&mut self, value: u64, count: u32)
        requires
            old(self).wf(),
            count <= 64,
            old(self)@.len() + count + 8 < usize::MAX,
        ensures
            final(self).wf(),
            final(self)@ == old(self)@ + bits_of(value, count as nat),
    {
        let ghost all = bits_of(value, count as nat);
        let mut left = count;
        while left > 0
            invariant
                self.wf(),
                left <= count <= 64,
                old(self)@.len() + count + 8 < usize::MAX,
                all == bits_of(value, count as nat),
                self@ == old(self)@ + all.take(count - left),
            decreases left,
        {
            let ghost before = self@;
            let ghost old_len = self@.len();
            if self.free == 0 {
                self.buf.push(0);
                self.free = 8;
            }
            let ghost mid_buf = self.buf@;
            proof {
                assert(8 * mid_buf.len() - self.free == old_len);
                assert forall|i: int| 0 <= i < old_len implies #[trigger] stream_of(mid_buf)[i]
                    == before[i] by {
                    assert(i / 8 < mid_buf.len());
                }
                assert forall|i: int| old_len <= i < 8 * mid_buf.len() implies !#[trigger] stream_of(
                    mid_buf,
                )[i] by {
                    if i / 8 >= before.len() / 8 + 1 || self.buf@.len() != mid_buf.len() {
                    }
                    if mid_buf[i / 8] == 0 {
                        lemma_zero_byte_bit((7 - i % 8) as u64);
                    }
                }
            }
            let take = if left < self.free { left } else { self.free };
            let chunk = ((value >> (left - take)) & mask(take)) as u8;
            let last = self.buf.len() - 1;
            let b = self.buf[last] | (chunk << (self.free - take));
            self.buf.set(last, b);
            proof {
                assert forall|i: int| 0 <= i < 8 * mid_buf.len() implies #[trigger] stream_of(
                    self.buf@,
                )[i] == if old_len <= i < old_len + take {
                    bit(value, left - 1 - (i - old_len))
                } else {
                    stream_of(mid_buf)[i]
                } by {
                    if i / 8 == last {
                        lemma_write_chunk(
                            mid_buf[last as int],
                            value,
                            left,
                            take,
                            self.free,
                            (i % 8) as u64,
                        );
                        assert(self.buf@[i / 8] == b);
                        assert(i - old_len == i % 8 - (8 - self.free));
                        if i >= old_len {
                            assert(!stream_of(mid_buf)[i]);
                        }
                    }
                }
            }
            self.free = self.free - take;
            left = left - take;
            proof {
                assert forall|i: int| 0 <= i < self@.len() implies #[trigger] self@[i] == (old(self)@
                    + all.take(count - left))[i] by {
                    if i >= old_len {
                        assert(all[count - left - (self@.len() - i)] == bit(value, left + (self@.len() - i) - 1));
                    }
                }
                assert(self@ =~= old(self)@ + all.take(count - left));
            }
        }
        assert(all.take(count as int) =~= all);
    }

    /// LEB128: seven payload bits per group, high bit set while more follow. A block header
    /// holding a point count or a Unix timestamp wastes most of a fixed 32 or 64-bit field.
    pub fn write_varint(&mut self, value: u64)
        requires
            old(self).wf(),
            old(self)@.len() + 88 < usize::MAX,
        ensures
            final(self).wf(),
            final(self)@ == old(self)@ + varint_bits(value),
    {
        proof {
            lemma_word_facts(value);
            assert((7 * 9nat) as u64 == 63u64);
            lemma_varint_len(value, 9);
        }
        let mut rest = value;
        loop
            invariant
                self.wf(),
                self@ + varint_bits(rest) == old(self)@ + varint_bits(value),
                self@.len() + varint_bits(rest).len() + 8 < usize::MAX,
            decreases rest,
        {
            let group = rest & 0x7F;
            let ghost before = rest;
            rest = rest >> 7;
            if rest == 0 {
                self.write_bits(group, 8);
                return;
            }
            proof {
                lemma_word_facts(before);
                assert(self@ + varint_bits(before) == self@ + bits_of(group | 0x80, 8) + varint_bits(rest));
            }
            self.write_bits(group | 0x80, 8);
        }
    }

    pub fn finish(self) -> (bytes: Vec<u8>)
        requires
            self.wf(),
        ensures
            stream_of(bytes@) == padded(self@),
    {
        self.buf
    }

    pub fn bit_len(&self) -> (n: usize)
        requires
            self.wf(),
        ensures
            n == self@.len(),
    {
        self.buf.len() * 8 - self.free as usize
    }
}

impl Default for BitWriter {
    fn default() -> (w: Self)
        ensures
            w.wf(),
            w@ == Seq::<bool>::empty(),
    {
        Self::new()
    }
}

pub struct BitReader<'a> {
    buf: &'a [u8],
    pos: usize,
}

impl<'a> BitReader<'a> {
    /// The bits of the buffer being read.
    pub closed spec fn stream(&self) -> Seq<bool> {
        stream_of(self.buf@)
    }

    /// How many bits have been read.
    pub closed spec fn pos(&self) -> int {
        self.pos as int
    }

    pub closed spec fn wf(&self) -> bool {
        &&& self.pos <= 8 * self.buf@.len()
        &&& 8 * self.buf@.len() <= usize::MAX
    }

    pub proof fn lemma_pos_bounds(&self)
        requires
            self.wf(),
        ensures
            0 <= self.pos() <= self.stream().len(),
    {
    }

    pub fn new(buf: &'a [u8]) -> (r: Self)
        requires
            8 * buf@.len() <= usize::MAX,
        ensures
            r.wf(),
            r.stream() == stream_of(buf@),
            r.pos() == 0,
    {
        BitReader { buf, pos: 0 }
    }

    pub fn read_bit(&mut self) -> (r: Result<bool, Error>)
        requires
            old(self).wf(),
        ensures
            final(self).wf(),
            final(self).stream() == old(self).stream(),
            match take_bit(old(self).stream(), old(self).pos()) {
                Ok((b, next)) => r == Ok::<bool, Error>(b) && final(self).pos() == next,
                Err(e) => r == Err::<bool, Error>(e) && final(self).pos() == old(self).pos(),
            },
    {
        if self.pos / 8 >= self.buf.len() {
            return Err(Error::UnexpectedEnd);
        }
        let byte = self.buf[self.pos / 8];
        let bit = (byte >> (7 - (self.pos % 8) as u8)) & 1 == 1;
        proof {
            let j = (self.pos % 8) as u8;
            assert(((byte >> (7 - j) as u8) & 1 == 1) == (((byte as u64) >> ((7 - j) as u64)) & 1
                == 1)) by (bit_vector)
                requires
                    j < 8,
            ;
        }
        self.pos = self.pos + 1;
        Ok(bit)
    }

    /// Reads `count` bits, most significant first.
    pub fn read_bits(&mut self, count: u32) -> (r: Result<u64, Error>)
        requires
            old(self).wf(),
            count <= 64,
        ensures
            final(self).wf(),
            final(self).stream() == old(self).stream(),
            match take_bits(old(self).stream(), old(self).pos(), count as nat) {
                Ok((v, next)) => r == Ok::<u64, Error>(v) && final(self).pos() == next && fits_bits(
                    v,
                    count as nat,
                ),
                Err(e) => r == Err::<u64, Error>(e) && final(self).pos() == old(self).pos(),
            },
    {
        if count as usize > self.buf.len() * 8 - self.pos {
            return Err(Error::UnexpectedEnd);
        }
        proof {
            lemma_take_bits_fits(self.stream(), self.pos as int, count as nat);
        }
        let ghost s = self.stream();
        let ghost p0 = self.pos as int;
        let mut out: u64 = 0;
        let mut left = count;
        assert(s.subrange(p0, p0) =~= Seq::<bool>::empty());
        while left > 0
            invariant
                self.wf(),
                self.stream() == s,
                self.buf == old(self).buf,
                left <= count <= 64,
                self.pos + left <= 8 * self.buf@.len(),
                0 <= p0,
                self.pos == p0 + (count - left),
                out == from_bits(s.subrange(p0, self.pos as int)),
            decreases left,
        {
            let byte = self.buf[self.pos / 8];
            let offset = (self.pos % 8) as u32;
            let available = 8 - offset;
            let take = if left < available {
                left
            } else {
                available
            };
            let chunk = (byte as u64 >> (available - take)) & mask(take);
            proof {
                let pos = self.pos as int;
                assert(s.len() == 8 * self.buf@.len());
                assert(p0 <= pos && pos + take <= s.len());
                lemma_bits_of_subrange(byte as u64, 8, offset as nat, take as nat);
                assert(s.subrange(pos, pos + take) =~= bits_of(byte as u64, 8).subrange(
                    offset as int,
                    (offset + take) as int,
                )) by {
                    assert forall|k: int| 0 <= k < take implies #[trigger] s.subrange(
                        pos,
                        pos + take,
                    )[k] == bits_of(byte as u64, 8).subrange(offset as int, (offset + take) as int)[k] by {
                        assert((pos + k) / 8 == pos / 8);
                        assert((pos + k) % 8 == offset + k);
                    }
                }
                lemma_from_bits_of((byte as u64) >> ((8 - offset - take) as u64), take as nat);
                lemma_from_bits_concat(s.subrange(p0, pos), s.subrange(pos, pos + take));
                lemma_subrange_split(s, p0, pos, pos + take);
            }
            out = (out << take) | chunk;
            self.pos = self.pos + take as usize;
            left = left - take;
        }
        Ok(out)
    }

    pub fn read_varint(&mut self) -> (r: Result<u64, Error>)
        requires
            old(self).wf(),
        ensures
            final(self).wf(),
            final(self).stream() == old(self).stream(),
            match varint_from(old(self).stream(), old(self).pos(), 0, 0) {
                Ok((v, next)) => r == Ok::<u64, Error>(v) && final(self).pos() == next,
                Err(e) => r == Err::<u64, Error>(e),
            },
    {
        let mut value = 0u64;
        let mut shift: u32 = 0;
        while shift < 64
            invariant
                self.wf(),
                self.stream() == old(self).stream(),
                shift % 7 == 0,
                shift <= 70,
                varint_from(old(self).stream(), old(self).pos(), 0, 0) == varint_from(
                    self.stream(),
                    self.pos(),
                    shift as nat,
                    value,
                ),
            decreases 70 - shift,
        {
            let group = match self.read_bits(8) {
                Ok(g) => g,
                Err(e) => {
                    return Err(e);
                },
            };
            value |= (group & 0x7F) << shift;
            if group & 0x80 == 0 {
                return Ok(value);
            }
            shift += 7;
        }
        Err(Error::MalformedBlock)
    }
}

/// The signed value of the low `bits` bits of `value`, read as two's complement.
pub open spec fn twos_complement(value: u64, bits: nat) -> int {
    let low = value as nat % pow2(bits);
    if low >= pow2((bits - 1) as nat) {
        low - pow2(bits)
    } else {
        low as int
    }
}

/// `value` lies in the range of a `bits`-bit two's complement integer.
pub open spec fn fits_signed(value: int, bits: nat) -> bool {
    bits >= 64 || (-pow2((bits - 1) as nat) <= value < pow2((bits - 1) as nat))
}

/// `value` as a zigzag code: small magnitudes of either sign stay small.
pub open spec fn zigzag_code(value: int) -> int {
    if value >= 0 {
        2 * value
    } else {
        -2 * value - 1
    }
}

/// Zigzag coding is one to one, so unzigzag undoes it.
pub proof fn lemma_zigzag_injective(a: int, b: int)
    requires
        zigzag_code(a) == zigzag_code(b),
    ensures
        a == b,
{
}

/// Small magnitudes of either sign get small codes: anything in -64..64 fits one varint group.
pub proof fn lemma_zigzag_small(v: int)
    requires
        -64 <= v < 64,
    ensures
        0 <= zigzag_code(v) < 128,
{
}

proof fn lemma_shl_pow2(n: u64)
    requires
        n < 64,
    ensures
        (1u64 << n) as nat == pow2(n as nat),
        ((1u64 << n) - 1) as u64 == vstd::bits::low_bits_mask(n as nat) as u64,
{
    vstd::bits::lemma_u64_pow2_no_overflow(n as nat);
    vstd::bits::lemma_u64_shl_is_mul(1u64, n);
}

proof fn lemma_low_bits(value: u64, n: u64)
    requires
        n < 64,
    ensures
        (value & (((1u64 << n) - 1) as u64)) as nat == value as nat % pow2(n as nat),
{
    lemma_shl_pow2(n);
    vstd::bits::lemma_u64_low_bits_mask_is_mod(value, n as nat);
}

/// Maps signed values onto unsigned ones so that small magnitudes of either sign stay short as
/// varints, instead of every negative filling all 64 bits.
pub fn zigzag(value: i64) -> (z: u64)
    ensures
        z as int == zigzag_code(value as int),
{
    let z = ((value << 1) ^ (value >> 63)) as u64;
    assert(z == (if value >= 0 { 2 * value } else { -2 * value - 1 }) as u64) by (bit_vector)
        requires
            z == ((value << 1) ^ (value >> 63)) as u64,
    ;
    z
}

pub fn unzigzag(value: u64) -> (v: i64)
    ensures
        zigzag_code(v as int) == value as int,
{
    proof {
        lemma_word_facts(value);
    }
    let low = (value & 1) as i64;
    let v = ((value >> 1) as i64) ^ -low;
    assert(v == ((value >> 1) as i64) ^ (if value & 1 == 1 { -1i64 } else { 0i64 }));
    assert(v == (if value & 1 == 0 { (value >> 1) as int } else { -((value >> 1) as int) - 1 }) as i64) by (bit_vector)
        requires
            v == ((value >> 1) as i64) ^ (if value & 1 == 1 { -1i64 } else { 0i64 }),
    ;
    v
}

/// Reinterprets the low `bits` of a two's complement value as a signed integer.
pub fn sign_extend(value: u64, bits: u32) -> (r: i64)
    ensures
        bits == 0 || bits >= 64 ==> r == value as i64,
        0 < bits < 64 ==> r as int == twos_complement(value, bits as nat),
{
    if bits == 0 || bits >= 64 {
        return value as i64;
    }
    let shift = 64 - bits;
    let r = ((value << shift) as i64) >> shift;
    proof {
        let b = bits as u64;
        assert(1 <= b < 64 ==> ({
            let low = value & (((1u64 << b) - 1) as u64);
            let half = 1u64 << ((b - 1) as u64);
            let r = ((value << ((64 - b) as u64)) as i64) >> ((64 - b) as u64);
            &&& low < half ==> r as int == low as int
            &&& low >= half ==> r as int == low as int - (1u64 << b) as int
        })) by (bit_vector);
        lemma_low_bits(value, b);
        lemma_shl_pow2(b);
        lemma_shl_pow2((b - 1) as u64);
    }
    r
}

/// Whether `value` fits a `bits`-bit two's complement field.
pub fn fits_in(value: i64, bits: u32) -> (r: bool)
    requires
        bits >= 1,
    ensures
        r == fits_signed(value as int, bits as nat),
{
    if bits >= 64 {
        return true;
    }
    let limit = 1i64 << (bits - 1);
    proof {
        let b = (bits - 1) as u64;
        assert(b < 63 ==> (1i64 << b) as int == (1u64 << b) as int) by (bit_vector);
        lemma_shl_pow2(b);
    }
    value >= -limit && value < limit
}

} // verus!
