//! Chimp128, the windowed variant from the same paper as [`super::chimp`]: XOR against the
//! best of the last 128 values rather than always the previous one.
//!
//! Two values agreeing on their low mantissa bits XOR to something with many trailing zeros,
//! so keying a side table on those bits finds a good reference in one lookup.
use vstd::prelude::*;
use vstd::std_specs::bits::{u64_leading_zeros, u64_trailing_zeros};

use crate::bits::{
    lemma_take_bits_prefix,
    lemma_fitting_mask, lemma_signed_word, lemma_small_powers, lemma_word_facts, lemma_xor_facts,
    bits_of, lemma_significant_window, lemma_starts_with_concat, lemma_take_bits_of,
    lemma_zero_runs, low_mask, padded, starts_with, stream_of, take_bits, BitReader, BitWriter,
};
use crate::codec::chimp::{index_of, leading_buckets, leading_index, leading_round, round_of};
use crate::codec::dod::{
    dod_bits, dod_parse, lemma_dod_len, lemma_dod_parse_prefix, lemma_dod_roundtrip,
};
use crate::codec::{
    finish_block, frames, lemma_count_roundtrip, lemma_word_roundtrip, read_count, start_block, Dod,
    TAG_CHIMP128,
};
use crate::error::Error;
use crate::Point;

verus! {

pub const WINDOW: usize = 128;

pub const WINDOW_BITS: u32 = 7;

/// Naming a reference costs `WINDOW_BITS` plus 6 for the significant-bit count, so it only
/// wins beyond that many trailing zeros.
pub const TRAILING_THRESHOLD: u32 = 13;

pub const KEY_BITS: u32 = 14;

/// The low `KEY_BITS` of a value key the table of recent sequence numbers.
pub const KEY_MASK: u64 = 0x3fff;

pub const TABLE_LEN: usize = 16384;

pub const NO_WINDOW: u32 = u32::MAX;

/// The writer's state: the last 128 values by slot, the table from key to the sequence number
/// that last held it, the sequence number, the current slot and the reusable leading count.
pub type WriterState = (Seq<u64>, Seq<u32>, u32, int, u32);

/// The reader's state: the last 128 values by slot, the current slot and the reusable
/// leading count.
pub type ReaderState = (Seq<u64>, int, u32);

pub open spec fn stored_start(first: u64) -> Seq<u64> {
    Seq::new(WINDOW as nat, |i: int| if i == 0 { first } else { 0 })
}

pub open spec fn writer_start(first: u64) -> WriterState {
    (stored_start(first), Seq::new(TABLE_LEN as nat, |i: int| 0u32), 0, 0, NO_WINDOW)
}

pub open spec fn reader_start(first: u64) -> ReaderState {
    (stored_start(first), 0, NO_WINDOW)
}

/// What the reader keeps of the writer's state.
pub open spec fn reader_view(st: WriterState) -> ReaderState {
    (st.0, st.3, st.4)
}

pub open spec fn writer_wf(st: WriterState) -> bool {
    &&& st.0.len() == WINDOW
    &&& st.1.len() == TABLE_LEN
    &&& 0 <= st.3 < WINDOW
    &&& forall|k: int| 0 <= k < TABLE_LEN ==> #[trigger] st.1[k] <= st.2
    &&& st.4 == NO_WINDOW || st.4 <= 24
}

pub open spec fn reader_wf(st: ReaderState) -> bool {
    &&& st.0.len() == WINDOW
    &&& 0 <= st.1 < WINDOW
    &&& st.2 == NO_WINDOW || st.2 <= 24
}

pub open spec fn key_of(bits: u64) -> int {
    (bits & KEY_MASK) as int
}

/// Two values with the same key agree on their low `KEY_BITS` bits, so their XOR has at least
/// that many trailing zeros: a single lookup yields a reference worth considering.
pub proof fn lemma_same_key_trailing_zeros(a: u64, b: u64)
    requires
        key_of(a) == key_of(b),
    ensures
        u64_trailing_zeros(a ^ b) >= KEY_BITS,
{
    let x = a ^ b;
    assert(x & 0x3fff == 0) by (bit_vector)
        requires
            a & 0x3fff == b & 0x3fff,
            x == a ^ b,
    ;
    vstd::std_specs::bits::axiom_u64_trailing_zeros(x);
    let t = u64_trailing_zeros(x) as u64;
    if t < 14 {
        assert((x >> t) & 1 == 1);
        assert(x & 0x3fff == 0 && t < 14 ==> (x >> t) & 1 == 0) by (bit_vector);
    }
}

/// The reference slot and the XOR against it: the value that last shared `bits`' low key
/// bits, when it is still inside the window and saves more than 13 trailing zeros, otherwise
/// the previous value.
pub open spec fn reference_of(st: WriterState, bits: u64) -> (int, u64) {
    let candidate = st.1[key_of(bits)];
    let previous = (st.3, bits ^ st.0[st.3]);
    if st.2 - candidate < WINDOW {
        let slot = candidate as int % WINDOW as int;
        let xor = bits ^ st.0[slot];
        if u64_trailing_zeros(xor) > TRAILING_THRESHOLD {
            (slot, xor)
        } else {
            previous
        }
    } else {
        previous
    }
}

/// The bits that encode `bits`: `00` and a 7-bit reference for a repeat of a recent value;
/// `01`, the reference, the bucket, a 6-bit width and the significant bits when there are
/// more than 13 trailing zeros; `10` and the bits below the reused leading count; `11`, the
/// bucket and the bits below it.
#[verifier::opaque]
pub open spec fn value_bits(st: WriterState, bits: u64) -> Seq<bool> {
    let (reference, xor) = reference_of(st, bits);
    if xor == 0 {
        bits_of(0, 2) + bits_of(reference as u64, 7)
    } else {
        let index = index_of(u64_leading_zeros(xor));
        let leading = round_of(index as int);
        let trailing = u64_trailing_zeros(xor);
        if trailing > TRAILING_THRESHOLD {
            let width = 64 - leading - trailing;
            bits_of(1, 2) + bits_of(reference as u64, 7) + bits_of(index as u64, 3) + bits_of(
                width as u64,
                6,
            ) + bits_of(xor >> (trailing as u64), width as nat)
        } else if leading == st.4 {
            bits_of(2, 2) + bits_of(xor, (64 - leading) as nat)
        } else {
            bits_of(3, 2) + bits_of(index as u64, 3) + bits_of(xor, (64 - leading) as nat)
        }
    }
}

pub open spec fn value_after(st: WriterState, bits: u64) -> WriterState {
    let (reference, xor) = reference_of(st, bits);
    let leading = if xor == 0 || u64_trailing_zeros(xor) > TRAILING_THRESHOLD {
        NO_WINDOW
    } else {
        round_of(index_of(u64_leading_zeros(xor)) as int)
    };
    let current = (st.3 + 1) % WINDOW as int;
    let sequence = (st.2 + 1) as u32;
    (st.0.update(current, bits), st.1.update(key_of(bits), sequence), sequence, current, leading)
}

/// The reader's state after a value, stored in the next slot.
pub open spec fn reader_after(st: ReaderState, value: u64, leading: u32) -> ReaderState {
    let current = (st.1 + 1) % WINDOW as int;
    (st.0.update(current, value), current, leading)
}

/// Reading one value at `pos`. An empty or oversized window, or a reuse with nothing to
/// reuse, is malformed.
#[verifier::opaque]
pub open spec fn value_parse(s: Seq<bool>, pos: int, st: ReaderState) -> Result<
    (u64, int, ReaderState),
    Error,
> {
    match take_bits(s, pos, 2) {
        Err(e) => Err(e),
        Ok((flag, p1)) => if flag == 0 {
            match take_bits(s, p1, 7) {
                Err(e) => Err(e),
                Ok((reference, p2)) => {
                    let v = st.0[reference as int];
                    Ok((v, p2, reader_after(st, v, NO_WINDOW)))
                },
            }
        } else if flag == 1 {
            match take_bits(s, p1, 7) {
                Err(e) => Err(e),
                Ok((reference, p2)) => match take_bits(s, p2, 3) {
                    Err(e) => Err(e),
                    Ok((index, p3)) => match take_bits(s, p3, 6) {
                        Err(e) => Err(e),
                        Ok((width, p4)) => {
                            let leading = round_of(index as int);
                            if width == 0 || leading + width > 64 {
                                Err(Error::MalformedBlock)
                            } else {
                                match take_bits(s, p4, width as nat) {
                                    Err(e) => Err(e),
                                    Ok((x, p5)) => {
                                        let v = st.0[reference as int] ^ (x << ((64 - leading
                                            - width) as u64));
                                        Ok((v, p5, reader_after(st, v, NO_WINDOW)))
                                    },
                                }
                            }
                        },
                    },
                },
            }
        } else if flag == 2 {
            if st.2 == NO_WINDOW {
                Err(Error::MalformedBlock)
            } else {
                match take_bits(s, p1, (64 - st.2) as nat) {
                    Err(e) => Err(e),
                    Ok((x, p2)) => {
                        let v = st.0[st.1] ^ x;
                        Ok((v, p2, reader_after(st, v, st.2)))
                    },
                }
            }
        } else {
            match take_bits(s, p1, 3) {
                Err(e) => Err(e),
                Ok((index, p2)) => {
                    let leading = round_of(index as int);
                    match take_bits(s, p2, (64 - leading) as nat) {
                        Err(e) => Err(e),
                        Ok((x, p3)) => {
                            let v = st.0[st.1] ^ x;
                            Ok((v, p3, reader_after(st, v, leading)))
                        },
                    }
                },
            }
        },
    }
}

proof fn lemma_round_index(lz: int)
    requires
        0 <= lz <= 63,
    ensures
        index_of(lz) < 8,
        round_of(index_of(lz) as int) <= lz,
        round_of(index_of(lz) as int) <= 24,
{
}

pub proof fn lemma_value_bits_len(st: WriterState, bits: u64)
    requires
        writer_wf(st),
    ensures
        value_bits(st, bits).len() <= 77,
{
    reveal(value_bits);
    let xor = reference_of(st, bits).1;
    if xor != 0 {
        lemma_zero_runs(xor);
        lemma_round_index(u64_leading_zeros(xor));
    }
}

pub proof fn lemma_value_after_wf(st: WriterState, bits: u64)
    requires
        writer_wf(st),
        st.2 < u32::MAX,
    ensures
        writer_wf(value_after(st, bits)),
        value_after(st, bits).2 == st.2 + 1,
{
    let xor = reference_of(st, bits).1;
    if xor != 0 {
        lemma_zero_runs(xor);
        lemma_round_index(u64_leading_zeros(xor));
    }
    lemma_word_facts(bits);
    let after = value_after(st, bits);
    assert forall|k: int| 0 <= k < TABLE_LEN implies #[trigger] after.1[k] <= after.2 by {}
}

/// The reference a writer names is always a slot of the window.
proof fn lemma_reference_in_window(st: WriterState, bits: u64)
    requires
        writer_wf(st),
    ensures
        0 <= reference_of(st, bits).0 < WINDOW,
        reference_of(st, bits).1 == bits ^ st.0[reference_of(st, bits).0],
        u64_trailing_zeros(reference_of(st, bits).1) <= TRAILING_THRESHOLD ==> reference_of(
            st,
            bits,
        ).0 == st.3,
{
    lemma_word_facts(bits);
}

/// What a value costs when the previous value is its reference: its XOR with the previous
/// value is nonzero with at most 13 trailing zeros, and the table offers no other reference
/// (the slot it names for the value's key has left the 128-value window, or its XOR has at
/// most 13 trailing zeros). Let bucket `i` be the largest bucket not above the XOR's
/// leading-zero count and `r` its count. When the stored bucket is `r` the value is `10` and
/// the low `64 - r` bits of the XOR; otherwise `11`, `i` and those bits. Either way `r` is kept.
pub proof fn lemma_previous_reference_cost(st: WriterState, bits: u64, i: int)
    requires
        writer_wf(st),
        0 <= i < 8,
        ({
            let xor = bits ^ st.0[st.3];
            let candidate = st.1[(bits & KEY_MASK) as int];
            &&& xor != 0
            &&& u64_trailing_zeros(xor) <= 13
            &&& !(st.2 - candidate < 128 && u64_trailing_zeros(
                bits ^ st.0[candidate as int % 128],
            ) > 13)
            &&& leading_buckets()[i] <= u64_leading_zeros(xor)
            &&& (i == 7 || u64_leading_zeros(xor) < leading_buckets()[i + 1])
        }),
    ensures
        ({
            let xor = bits ^ st.0[st.3];
            let r = leading_buckets()[i];
            &&& value_bits(st, bits) == if st.4 == r {
                bits_of(2, 2) + bits_of(xor, (64 - r) as nat)
            } else {
                bits_of(3, 2) + bits_of(i as u64, 3) + bits_of(xor, (64 - r) as nat)
            }
            &&& value_after(st, bits).4 == r
            &&& value_after(st, bits).0 == st.0.update((st.3 + 1) % 128, bits)
        }),
{
    reveal(value_bits);
    let xor = bits ^ st.0[st.3];
    lemma_word_facts(bits);
    lemma_zero_runs(xor);
    assert(reference_of(st, bits) == (st.3, xor));
    let lz = u64_leading_zeros(xor) as int;
    assert(index_of(lz) == i);
    assert(round_of(i) == leading_buckets()[i]);
}

/// The writer's state after `first` and then each of `values`.
pub open spec fn writer_after(first: u64, values: Seq<u64>) -> WriterState
    decreases values.len(),
{
    if values.len() == 0 {
        writer_start(first)
    } else {
        value_after(writer_after(first, values.drop_last()), values.last())
    }
}

/// The last value a writer was given.
pub open spec fn last_value(first: u64, values: Seq<u64>) -> u64 {
    if values.len() == 0 {
        first
    } else {
        values.last()
    }
}

/// After `k` values, the sequence number is `k`, the current slot is `k % 128` and holds the
/// last value, and the table maps that value's key to `k`.
proof fn lemma_writer_after(first: u64, values: Seq<u64>)
    requires
        values.len() < u32::MAX,
    ensures
        ({
            let st = writer_after(first, values);
            let k = values.len();
            &&& writer_wf(st)
            &&& st.2 == k
            &&& st.3 == k as int % WINDOW as int
            &&& st.0[st.3] == last_value(first, values)
            &&& st.1[key_of(last_value(first, values))] == k
        }),
    decreases values.len(),
{
    lemma_word_facts(first);
    if values.len() > 0 {
        let before = values.drop_last();
        lemma_writer_after(first, before);
        let st = writer_after(first, before);
        lemma_value_after_wf(st, values.last());
        lemma_word_facts(values.last());
        let k = before.len();
        assert((k % 128 + 1) % 128 == (k + 1) % 128);
    } else {
        assert(writer_wf(writer_start(first))) by {
            assert forall|k: int| 0 <= k < TABLE_LEN implies #[trigger] writer_start(first).1[k]
                <= writer_start(first).2 by {}
        }
    }
}

/// Repeating the last value costs nine bits: `00` and the slot of the previous value, which
/// after `k` further values is `k % 128`.
pub proof fn lemma_repeat_costs_nine_bits(first: u64, values: Seq<u64>)
    requires
        values.len() < u32::MAX,
    ensures
        value_bits(writer_after(first, values), last_value(first, values)) == bits_of(0, 2)
            + bits_of((values.len() as int % WINDOW as int) as u64, 7),
{
    reveal(value_bits);
    lemma_writer_after(first, values);
    let st = writer_after(first, values);
    let bits = last_value(first, values);
    lemma_word_facts(bits);
    vstd::std_specs::bits::axiom_u64_trailing_zeros(0);
    lemma_xor_facts(bits, bits);
    let candidate = st.1[key_of(bits)];
    assert(candidate == st.2);
    assert(candidate as int % WINDOW as int == st.3);
    assert(bits ^ st.0[st.3] == 0);
    assert(reference_of(st, bits) == (st.3, 0u64));
}

/// Reading back a written value gives it back, with the reader's part of the writer's state.
pub proof fn lemma_value_roundtrip(s: Seq<bool>, pos: int, st: WriterState, bits: u64)
    requires
        writer_wf(st),
        starts_with(s, pos, value_bits(st, bits)),
    ensures
        value_parse(s, pos, reader_view(st)) == Ok::<(u64, int, ReaderState), Error>(
            (bits, pos + value_bits(st, bits).len(), reader_view(value_after(st, bits))),
        ),
{
    reveal(value_parse);
    reveal(value_bits);
    let (reference, xor) = reference_of(st, bits);
    lemma_reference_in_window(st, bits);
    let stored = st.0[reference];
    lemma_xor_facts(stored, bits);
    lemma_small_powers();
    let rv = reader_view(st);
    if xor == 0 {
        let a = bits_of(0, 2);
        let b = bits_of(reference as u64, 7);
        lemma_starts_with_concat(s, pos, a, b);
        lemma_take_bits_of(s, pos, 0, 2);
        lemma_fitting_mask(0, 2);
        lemma_take_bits_of(s, pos + 2, reference as u64, 7);
        lemma_fitting_mask(reference as u64, 7);
        assert(take_bits(s, pos, 2) == Ok::<(u64, int), Error>((0, pos + 2)));
        assert(take_bits(s, pos + 2, 7) == Ok::<(u64, int), Error>((reference as u64, pos + 9)));
        assert(bits == stored);
        assert(reader_view(value_after(st, bits)) =~= reader_after(rv, bits, NO_WINDOW));
    } else {
        lemma_zero_runs(xor);
        let lz = u64_leading_zeros(xor);
        lemma_round_index(lz);
        let index = index_of(lz);
        let leading = round_of(index as int);
        let trailing = u64_trailing_zeros(xor);
        if trailing > TRAILING_THRESHOLD {
            let width = 64 - leading - trailing;
            let a = bits_of(1, 2);
            let b = bits_of(reference as u64, 7);
            let c = bits_of(index as u64, 3);
            let d = bits_of(width as u64, 6);
            let e = bits_of(xor >> (trailing as u64), width as nat);
            lemma_starts_with_concat(s, pos, ((a + b) + c) + d, e);
            lemma_starts_with_concat(s, pos, (a + b) + c, d);
            lemma_starts_with_concat(s, pos, a + b, c);
            lemma_starts_with_concat(s, pos, a, b);
            lemma_take_bits_of(s, pos, 1, 2);
            lemma_fitting_mask(1, 2);
            lemma_take_bits_of(s, pos + 2, reference as u64, 7);
            lemma_fitting_mask(reference as u64, 7);
            lemma_take_bits_of(s, pos + 9, index as u64, 3);
            lemma_fitting_mask(index as u64, 3);
            lemma_take_bits_of(s, pos + 12, width as u64, 6);
            lemma_fitting_mask(width as u64, 6);
            lemma_significant_window(xor, leading as nat, trailing as nat);
            lemma_take_bits_of(s, pos + 18, xor >> (trailing as u64), width as nat);
            assert(take_bits(s, pos, 2) == Ok::<(u64, int), Error>((1, pos + 2)));
            assert(take_bits(s, pos + 2, 7) == Ok::<(u64, int), Error>((reference as u64, pos + 9)));
            assert(take_bits(s, pos + 9, 3) == Ok::<(u64, int), Error>((index as u64, pos + 12)));
            assert(take_bits(s, pos + 12, 6) == Ok::<(u64, int), Error>((width as u64, pos + 18)));
            assert(stored ^ xor == bits);
            assert(reader_view(value_after(st, bits)) =~= reader_after(rv, bits, NO_WINDOW));
        } else if leading == st.4 {
            let a = bits_of(2, 2);
            let b = bits_of(xor, (64 - leading) as nat);
            lemma_starts_with_concat(s, pos, a, b);
            lemma_take_bits_of(s, pos, 2, 2);
            lemma_fitting_mask(2, 2);
            lemma_significant_window(xor, leading as nat, 0);
            lemma_word_facts(xor);
            lemma_take_bits_of(s, pos + 2, xor, (64 - leading) as nat);
            assert(take_bits(s, pos, 2) == Ok::<(u64, int), Error>((2, pos + 2)));
            assert(stored ^ xor == bits);
            assert(reader_view(value_after(st, bits)) =~= reader_after(rv, bits, leading));
        } else {
            let a = bits_of(3, 2);
            let b = bits_of(index as u64, 3);
            let c = bits_of(xor, (64 - leading) as nat);
            lemma_starts_with_concat(s, pos, a + b, c);
            lemma_starts_with_concat(s, pos, a, b);
            lemma_take_bits_of(s, pos, 3, 2);
            lemma_fitting_mask(3, 2);
            lemma_take_bits_of(s, pos + 2, index as u64, 3);
            lemma_fitting_mask(index as u64, 3);
            lemma_significant_window(xor, leading as nat, 0);
            lemma_word_facts(xor);
            lemma_take_bits_of(s, pos + 5, xor, (64 - leading) as nat);
            assert(take_bits(s, pos, 2) == Ok::<(u64, int), Error>((3, pos + 2)));
            assert(take_bits(s, pos + 2, 3) == Ok::<(u64, int), Error>((index as u64, pos + 5)));
            assert(stored ^ xor == bits);
            assert(reader_view(value_after(st, bits)) =~= reader_after(rv, bits, leading));
        }
    }
}

pub struct Chimp128Writer {
    stored: Vec<u64>,
    /// Low `KEY_BITS` of a value to the sequence number that last held it.
    recent: Vec<u32>,
    sequence: u32,
    current: usize,
    leading: u32,
}

impl View for Chimp128Writer {
    type V = WriterState;

    closed spec fn view(&self) -> WriterState {
        (self.stored@, self.recent@, self.sequence, self.current as int, self.leading)
    }
}

impl Chimp128Writer {
    pub fn new(first: u64) -> (x: Self)
        ensures
            x@ == writer_start(first),
    {
        let mut stored: Vec<u64> = Vec::new();
        while stored.len() < WINDOW
            invariant
                stored.len() <= WINDOW,
                forall|i: int| 0 <= i < stored.len() ==> stored@[i] == 0,
            decreases WINDOW - stored.len(),
        {
            stored.push(0);
        }
        let mut recent: Vec<u32> = Vec::new();
        while recent.len() < TABLE_LEN
            invariant
                recent.len() <= TABLE_LEN,
                forall|i: int| 0 <= i < recent.len() ==> recent@[i] == 0,
            decreases TABLE_LEN - recent.len(),
        {
            recent.push(0);
        }
        stored.set(0, first);
        proof {
            lemma_word_facts(first);
        }
        recent.set((first & KEY_MASK) as usize, 0);
        let writer = Chimp128Writer { stored, recent, sequence: 0, current: 0, leading: NO_WINDOW };
        assert(writer@.0 =~= stored_start(first));
        assert(writer@.1 =~= Seq::new(TABLE_LEN as nat, |i: int| 0u32));
        writer
    }

    pub fn write(&mut self, w: &mut BitWriter, bits: u64)
        requires
            writer_wf(old(self)@),
            old(self)@.2 < u32::MAX,
            old(w).wf(),
            old(w)@.len() + 85 < usize::MAX,
        ensures
            final(w).wf(),
            final(w)@ == old(w)@ + value_bits(old(self)@, bits),
            final(self)@ == value_after(old(self)@, bits),
    {
        proof {
            reveal(value_bits);
        }
        proof {
            lemma_word_facts(bits);
            lemma_reference_in_window(self@, bits);
        }
        let key = (bits & KEY_MASK) as usize;
        let candidate = self.recent[key];

        // `current` is `sequence` modulo the window, so a stored sequence number maps straight
        // onto a slot.
        let (reference, xor) = if self.sequence - candidate < WINDOW as u32 {
            let slot = candidate as usize % WINDOW;
            let xor = bits ^ self.stored[slot];
            if xor.trailing_zeros() > TRAILING_THRESHOLD {
                (slot, xor)
            } else {
                (self.current, bits ^ self.stored[self.current])
            }
        } else {
            (self.current, bits ^ self.stored[self.current])
        };
        assert((reference as int, xor) == reference_of(old(self)@, bits));

        if xor == 0 {
            w.write_bits(0b00, 2);
            w.write_bits(reference as u64, WINDOW_BITS);
            self.leading = NO_WINDOW;
        } else {
            proof {
                lemma_zero_runs(xor);
                lemma_round_index(u64_leading_zeros(xor));
            }
            let index = leading_index(xor.leading_zeros()) as usize;
            let leading = leading_round(index);
            let trailing = xor.trailing_zeros();

            if trailing > TRAILING_THRESHOLD {
                let width = 64 - leading - trailing;
                w.write_bits(0b01, 2);
                w.write_bits(reference as u64, WINDOW_BITS);
                w.write_bits(index as u64, 3);
                w.write_bits(width as u64, 6);
                w.write_bits(xor >> trailing, width);
                self.leading = NO_WINDOW;
            } else if leading == self.leading {
                w.write_bits(0b10, 2);
                w.write_bits(xor, 64 - leading);
            } else {
                w.write_bits(0b11, 2);
                w.write_bits(index as u64, 3);
                w.write_bits(xor, 64 - leading);
                self.leading = leading;
            }
        }
        assert(w@ =~= old(w)@ + value_bits(old(self)@, bits));

        self.current = (self.current + 1) % WINDOW;
        self.stored.set(self.current, bits);
        self.sequence += 1;
        self.recent.set(key, self.sequence);
    }
}

pub struct Chimp128Reader {
    stored: Vec<u64>,
    current: usize,
    leading: u32,
}

impl View for Chimp128Reader {
    type V = ReaderState;

    closed spec fn view(&self) -> ReaderState {
        (self.stored@, self.current as int, self.leading)
    }
}

impl Chimp128Reader {
    pub fn new(first: u64) -> (x: Self)
        ensures
            x@ == reader_start(first),
    {
        let mut stored: Vec<u64> = Vec::new();
        while stored.len() < WINDOW
            invariant
                stored.len() <= WINDOW,
                forall|i: int| 0 <= i < stored.len() ==> stored@[i] == 0,
            decreases WINDOW - stored.len(),
        {
            stored.push(0);
        }
        stored.set(0, first);
        let reader = Chimp128Reader { stored, current: 0, leading: NO_WINDOW };
        assert(reader@.0 =~= stored_start(first));
        reader
    }

    pub fn read(&mut self, r: &mut BitReader) -> (res: Result<u64, Error>)
        requires
            reader_wf(old(self)@),
            old(r).wf(),
        ensures
            final(r).wf(),
            final(r).stream() == old(r).stream(),
            match value_parse(old(r).stream(), old(r).pos(), old(self)@) {
                Ok((v, next, st)) => {
                    &&& res == Ok::<u64, Error>(v)
                    &&& final(self)@ == st
                    &&& reader_wf(st)
                    &&& final(r).pos() == next
                },
                Err(e) => res == Err::<u64, Error>(e),
            },
    {
        proof {
            reveal(value_parse);
        }
        let flag = r.read_bits(2)?;
        proof {
            lemma_fitting_mask(flag, 2);
                lemma_small_powers();
        }
        let value = if flag == 0b00 {
            let reference = r.read_bits(WINDOW_BITS)?;
            proof {
                lemma_fitting_mask(reference, 7);
                lemma_small_powers();
            }
            self.leading = NO_WINDOW;
            self.stored[reference as usize]
        } else if flag == 0b01 {
            let reference = r.read_bits(WINDOW_BITS)?;
            proof {
                lemma_fitting_mask(reference, 7);
                lemma_small_powers();
            }
            let index = r.read_bits(3)?;
            proof {
                lemma_fitting_mask(index, 3);
                lemma_small_powers();
            }
            let leading = leading_round(index as usize);
            let width = r.read_bits(6)?;
            proof {
                lemma_fitting_mask(width, 6);
                lemma_small_powers();
            }
            let width = width as u32;
            if width == 0 || leading + width > 64 {
                return Err(Error::MalformedBlock);
            }
            let xor = r.read_bits(width)? << (64 - leading - width);
            self.leading = NO_WINDOW;
            self.stored[reference as usize] ^ xor
        } else if flag == 0b10 {
            if self.leading == NO_WINDOW {
                return Err(Error::MalformedBlock);
            }
            self.stored[self.current] ^ r.read_bits(64 - self.leading)?
        } else {
            let index = r.read_bits(3)?;
            proof {
                lemma_fitting_mask(index, 3);
                lemma_small_powers();
            }
            self.leading = leading_round(index as usize);
            self.stored[self.current] ^ r.read_bits(64 - self.leading)?
        };
        self.current = (self.current + 1) % WINDOW;
        self.stored.set(self.current, value);
        Ok(value)
    }
}

pub open spec fn states(first: Point, rest: Seq<Point>) -> (Dod, WriterState)
    decreases rest.len(),
{
    if rest.len() == 0 {
        (Dod { prev: first.timestamp, delta: 0 }, writer_start(first.value))
    } else {
        let (ts, xs) = states(first, rest.drop_last());
        (ts.after(rest.last().timestamp), value_after(xs, rest.last().value))
    }
}

/// The bits for the points that follow `first`: each one's timestamp delta-of-delta, then
/// its value.
pub open spec fn rest_bits(first: Point, rest: Seq<Point>) -> Seq<bool>
    decreases rest.len(),
{
    if rest.len() == 0 {
        Seq::empty()
    } else {
        let (ts, xs) = states(first, rest.drop_last());
        rest_bits(first, rest.drop_last()) + dod_bits(ts.delta_of(rest.last().timestamp))
            + value_bits(xs, rest.last().value)
    }
}

/// A block's bit stream: the 32-bit count, then, if there is a first point, its timestamp and
/// value in 64 bits each and the rest.
pub open spec fn block_bits(points: Seq<Point>) -> Seq<bool> {
    bits_of(points.len() as u64, 32) + if points.len() == 0 {
        Seq::empty()
    } else {
        bits_of(points[0].timestamp as u64, 64) + bits_of(points[0].value, 64) + rest_bits(
            points[0],
            points.drop_first(),
        )
    }
}

/// Reading a value from a prefix of a stream gives what the whole stream gives when its bits
/// lie inside the prefix, and runs out of stream otherwise.
pub proof fn lemma_value_parse_prefix(s: Seq<bool>, len: int, pos: int, st: ReaderState)
    requires
        0 <= len <= s.len(),
        0 <= pos <= len,
    ensures
        match value_parse(s, pos, st) {
            Ok((v, p, st2)) => pos <= p <= s.len() && value_parse(s.take(len), pos, st) == if p <= len {
                Ok::<(u64, int, ReaderState), Error>((v, p, st2))
            } else {
                Err::<(u64, int, ReaderState), Error>(Error::UnexpectedEnd)
            },
            Err(_) => true,
        },
{
    broadcast use lemma_take_bits_prefix;

    reveal(value_parse);
}

/// Reading `k` points after `first`, starting at `pos`: the points so far, the position after
/// them and the reader's states.
pub open spec fn parse_rest(s: Seq<bool>, pos: int, first: Point, k: nat) -> Result<
    (Seq<Point>, int, Dod, ReaderState),
    Error,
>
    decreases k,
{
    if k == 0 {
        Ok((seq![first], pos, Dod { prev: first.timestamp, delta: 0 }, reader_start(first.value)))
    } else {
        match parse_rest(s, pos, first, (k - 1) as nat) {
            Err(e) => Err(e),
            Ok((pts, p, ts, xs)) => match dod_parse(s, p) {
                Err(e) => Err(e),
                Ok((d, p2)) => match value_parse(s, p2, xs) {
                    Err(e) => Err(e),
                    Ok((v, p3, xs2)) => Ok(
                        (
                            pts.push(Point { timestamp: ts.advance(d).prev, value: v }),
                            p3,
                            ts.advance(d),
                            xs2,
                        ),
                    ),
                },
            },
        }
    }
}

/// Reading a whole block body.
pub open spec fn block_parse(s: Seq<bool>) -> Result<Seq<Point>, Error> {
    match take_bits(s, 0, 32) {
        Err(e) => Err(e),
        Ok((count, p)) => if count == 0 {
            Ok(Seq::empty())
        } else {
            match take_bits(s, p, 64) {
                Err(e) => Err(e),
                Ok((ts, p2)) => match take_bits(s, p2, 64) {
                    Err(e) => Err(e),
                    Ok((v, p3)) => match parse_rest(
                        s,
                        p3,
                        Point { timestamp: ts as i64, value: v },
                        (count - 1) as nat,
                    ) {
                        Err(e) => Err(e),
                        Ok((pts, _, _, _)) => Ok(pts),
                    },
                },
            }
        },
    }
}

proof fn lemma_states_wf(first: Point, rest: Seq<Point>)
    requires
        rest.len() < u32::MAX,
    ensures
        writer_wf(states(first, rest).1),
        states(first, rest).1.2 == rest.len(),
    decreases rest.len(),
{
    if rest.len() > 0 {
        lemma_states_wf(first, rest.drop_last());
        lemma_value_after_wf(states(first, rest.drop_last()).1, rest.last().value);
    } else {
        assert forall|k: int| 0 <= k < TABLE_LEN implies #[trigger] writer_start(first.value).1[k]
            <= 0 by {}
    }
}

proof fn lemma_parse_rest_err(s: Seq<bool>, pos: int, first: Point, k: nat, k2: nat)
    requires
        k <= k2,
        parse_rest(s, pos, first, k) is Err,
    ensures
        parse_rest(s, pos, first, k2) == parse_rest(s, pos, first, k),
    decreases k2,
{
    if k2 > k {
        lemma_parse_rest_err(s, pos, first, k, (k2 - 1) as nat);
    }
}

proof fn lemma_parse_rest_roundtrip(s: Seq<bool>, pos: int, first: Point, rest: Seq<Point>)
    requires
        rest.len() < u32::MAX,
        starts_with(s, pos, rest_bits(first, rest)),
    ensures
        parse_rest(s, pos, first, rest.len()) == Ok::<(Seq<Point>, int, Dod, ReaderState), Error>(
            (
                seq![first] + rest,
                pos + rest_bits(first, rest).len(),
                states(first, rest).0,
                reader_view(states(first, rest).1),
            ),
        ),
    decreases rest.len(),
{
    if rest.len() == 0 {
        assert(seq![first] + rest =~= seq![first]);
        assert(reader_view(writer_start(first.value)) =~= reader_start(first.value));
    } else {
        let init = rest.drop_last();
        let last = rest.last();
        let (ts, xs) = states(first, init);
        let a = rest_bits(first, init);
        let b = dod_bits(ts.delta_of(last.timestamp));
        let c = value_bits(xs, last.value);
        assert(rest_bits(first, rest) == (a + b) + c);
        lemma_starts_with_concat(s, pos, a + b, c);
        lemma_starts_with_concat(s, pos, a, b);
        lemma_parse_rest_roundtrip(s, pos, first, init);
        assert(init.len() == (rest.len() - 1) as nat);
        lemma_dod_roundtrip(s, pos + a.len(), ts.delta_of(last.timestamp));
        ts.lemma_advance_after(last.timestamp);
        lemma_states_wf(first, init);
        lemma_value_roundtrip(s, pos + a.len() + b.len(), xs, last.value);
        assert((seq![first] + init).push(Point { timestamp: last.timestamp, value: last.value })
            =~= seq![first] + rest);
    }
}

/// What a Chimp128 block's body encodes, it decodes back to.
#[verifier::rlimit(40)]
pub proof fn lemma_block_roundtrip(points: Seq<Point>)
    requires
        points.len() <= u32::MAX,
    ensures
        block_parse(padded(block_bits(points))) == Ok::<Seq<Point>, Error>(points),
{
    let s = padded(block_bits(points));
    let head = bits_of(points.len() as u64, 32);
    let tail = if points.len() == 0 {
        Seq::empty()
    } else {
        bits_of(points[0].timestamp as u64, 64) + bits_of(points[0].value, 64) + rest_bits(
            points[0],
            points.drop_first(),
        )
    };
    assert(s.subrange(0, block_bits(points).len() as int) =~= block_bits(points));
    lemma_starts_with_concat(s, 0, head, tail);
    lemma_count_roundtrip(s, 0, points.len() as u64);
    if points.len() == 0 {
        assert(points =~= Seq::<Point>::empty());
    } else {
        let first = points[0];
        let a = bits_of(first.timestamp as u64, 64);
        let b = bits_of(first.value, 64);
        let c = rest_bits(first, points.drop_first());
        lemma_starts_with_concat(s, 32, a + b, c);
        lemma_starts_with_concat(s, 32, a, b);
        lemma_word_roundtrip(s, 32, first.timestamp as u64);
        lemma_word_roundtrip(s, 96, first.value);
        lemma_signed_word(first.timestamp);
        lemma_parse_rest_roundtrip(s, 160, first, points.drop_first());
        assert(seq![first] + points.drop_first() =~= points);
    }
}

/// Reading points from a prefix of a stream gives what the whole stream gives when their bits
/// lie inside the prefix, and runs out of stream otherwise.
proof fn lemma_parse_rest_prefix(s: Seq<bool>, len: int, pos: int, first: Point, k: nat)
    requires
        0 <= len <= s.len(),
        0 <= pos <= len,
    ensures
        match parse_rest(s, pos, first, k) {
            Ok((pts, p, ts, xs)) => pos <= p <= s.len() && parse_rest(s.take(len), pos, first, k)
                == if p <= len {
                Ok::<(Seq<Point>, int, Dod, ReaderState), Error>((pts, p, ts, xs))
            } else {
                Err::<(Seq<Point>, int, Dod, ReaderState), Error>(Error::UnexpectedEnd)
            },
            Err(_) => true,
        },
    decreases k,
{
    if k > 0 {
        lemma_parse_rest_prefix(s, len, pos, first, (k - 1) as nat);
        match parse_rest(s, pos, first, (k - 1) as nat) {
            Ok((pts, p, ts, xs)) => {
                let l2 = if p <= len { len } else { s.len() as int };
                lemma_dod_parse_prefix(s, l2, p);
                match dod_parse(s, p) {
                    Ok((d, p2)) => {
                        let l3 = if p2 <= len { len } else { s.len() as int };
                        lemma_value_parse_prefix(s, l3, p2, xs);
                    },
                    Err(_) => {},
                }
            },
            Err(_) => {},
        }
    }
}

/// A block body cut short of its last bit does not decode: it runs out of stream.
pub proof fn lemma_block_prefix(points: Seq<Point>, len: int)
    requires
        points.len() <= u32::MAX,
        0 <= len < block_bits(points).len(),
    ensures
        block_parse(padded(block_bits(points)).take(len)) == Err::<Seq<Point>, Error>(
            Error::UnexpectedEnd,
        ),
{
    broadcast use lemma_take_bits_prefix;

    let s = padded(block_bits(points));
    let head = bits_of(points.len() as u64, 32);
    let tail = if points.len() == 0 {
        Seq::empty()
    } else {
        bits_of(points[0].timestamp as u64, 64) + bits_of(points[0].value, 64) + rest_bits(
            points[0],
            points.drop_first(),
        )
    };
    assert(s.subrange(0, block_bits(points).len() as int) =~= block_bits(points));
    lemma_starts_with_concat(s, 0, head, tail);
    lemma_count_roundtrip(s, 0, points.len() as u64);
    if points.len() > 0 {
        let first = points[0];
        let a = bits_of(first.timestamp as u64, 64);
        let b = bits_of(first.value, 64);
        let c = rest_bits(first, points.drop_first());
        lemma_starts_with_concat(s, 32, a + b, c);
        lemma_starts_with_concat(s, 32, a, b);
        lemma_word_roundtrip(s, 32, first.timestamp as u64);
        lemma_word_roundtrip(s, 96, first.value);
        lemma_signed_word(first.timestamp);
        if len >= 160 {
            lemma_parse_rest_roundtrip(s, 160, first, points.drop_first());
            lemma_parse_rest_prefix(s, len, 160, first, points.drop_first().len());
        }
    }
}

pub struct Chimp128;

impl Chimp128 {
    pub fn name(&self) -> (n: &'static str)
        ensures
            n@ == "chimp128"@,
    {
        "chimp128"
    }

    pub fn encode(&self, points: &[Point]) -> (res: Result<Vec<u8>, Error>)
        requires
            points@.len() <= usize::MAX / 256,
        ensures
            points@.len() > u32::MAX ==> res == Err::<Vec<u8>, Error>(
                Error::TooManyPoints(points@.len() as usize),
            ),
            points@.len() <= u32::MAX ==> (res matches Ok(block) && frames(
                block@,
                TAG_CHIMP128,
                block_bits(points@),
            )),
    {
        let (head, mut w) = start_block(TAG_CHIMP128, points)?;
        let ghost start = w@;
        if points.len() > 0 {
            let first = points[0];
            w.write_bits(first.timestamp as u64, 64);
            w.write_bits(first.value, 64);
            let mut timestamps = Dod::new(first.timestamp);
            let mut values = Chimp128Writer::new(first.value);
            let mut i: usize = 1;
            assert(points@.subrange(1, 1) =~= Seq::<Point>::empty());
            while i < points.len()
                invariant
                    1 <= i <= points@.len() <= usize::MAX / 256,
                    points@.len() <= u32::MAX,
                    values@.2 == i - 1,
                    first == points@[0],
                    w.wf(),
                    w@ == start + bits_of(first.timestamp as u64, 64) + bits_of(first.value, 64)
                        + rest_bits(first, points@.subrange(1, i as int)),
                    start.len() == 32,
                    w@.len() <= 160 + 149 * (i - 1),
                    (timestamps, values@) == states(first, points@.subrange(1, i as int)),
                    writer_wf(values@),
                decreases points@.len() - i,
            {
                let ghost sub = points@.subrange(1, i as int);
                proof {
                    lemma_dod_len(timestamps.delta_of(points@[i as int].timestamp));
                    lemma_value_bits_len(values@, points@[i as int].value);
                    lemma_value_after_wf(values@, points@[i as int].value);
                    assert(points@.subrange(1, i + 1).drop_last() =~= sub);
                }
                timestamps.write(&mut w, points[i].timestamp);
                values.write(&mut w, points[i].value);
                i += 1;
            }
            assert(points@.subrange(1, points@.len() as int) =~= points@.drop_first());
        }
        assert(w@ =~= block_bits(points@));
        let block = finish_block(head, w);
        assert(block@[0] == block@.subrange(0, 1)[0]);
        Ok(block)
    }
}

/// Decodes a Chimp128 block body, the bytes after the tag.
pub fn decode(body: &[u8]) -> (res: Result<Vec<Point>, Error>)
    requires
        8 * body@.len() <= usize::MAX,
    ensures
        match block_parse(stream_of(body@)) {
            Ok(points) => res matches Ok(v) && v@ == points,
            Err(e) => res == Err::<Vec<Point>, Error>(e),
        },
{
    let mut r = BitReader::new(body);
    let ghost s = stream_of(body@);
    let count = read_count(&mut r)?;
    let mut points = Vec::with_capacity(crate::codec::capacity_for(count, body.len()));
    if count == 0 {
        return Ok(points);
    }
    let timestamp = r.read_bits(64)? as i64;
    let bits = r.read_bits(64)?;
    points.push(Point::new(timestamp, bits));
    let ghost first = Point { timestamp, value: bits };
    let ghost p0 = r.pos();
    let mut timestamps = Dod::new(timestamp);
    let mut values = Chimp128Reader::new(bits);
    let mut i: usize = 1;
    assert(points@ =~= seq![first]);
    while i < count
        invariant
            1 <= i <= count,
            r.wf(),
            r.stream() == s,
            s == stream_of(body@),
            block_parse(s) == match parse_rest(s, p0, first, (count - 1) as nat) {
                Err(e) => Err(e),
                Ok((pts, _, _, _)) => Ok::<Seq<Point>, Error>(pts),
            },
            parse_rest(s, p0, first, (i - 1) as nat) == Ok::<(Seq<Point>, int, Dod, ReaderState), Error>(
                (points@, r.pos(), timestamps, values@),
            ),
            reader_wf(values@),
        decreases count - i,
    {
        let ghost k = (i - 1) as nat;
        let ghost pos_before = r.pos();
        let ghost ts_before = timestamps;
        let ghost xs_before = values@;
        let ghost pts_before = points@;
        let timestamp = match timestamps.read(&mut r) {
            Ok(t) => t,
            Err(e) => {
                proof {
                    assert(parse_rest(s, p0, first, k + 1) == Err::<(Seq<Point>, int, Dod, ReaderState), Error>(e));
                    lemma_parse_rest_err(s, p0, first, k + 1, (count - 1) as nat);
                }
                return Err(e);
            },
        };
        let ghost pos_mid = r.pos();
        let bits = match values.read(&mut r) {
            Ok(b) => b,
            Err(e) => {
                proof {
                    assert(dod_parse(s, pos_before) matches Ok((_, p)) && p == pos_mid);
                    assert(parse_rest(s, p0, first, k + 1) == Err::<(Seq<Point>, int, Dod, ReaderState), Error>(e));
                    lemma_parse_rest_err(s, p0, first, k + 1, (count - 1) as nat);
                }
                return Err(e);
            },
        };
        points.push(Point::new(timestamp, bits));
        i += 1;
    }
    Ok(points)
}

} // verus!
