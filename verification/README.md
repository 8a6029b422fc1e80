# graupel

Lossless compression codecs for time series — Gorilla, decimal scaling, Chimp and Chimp128,
and a best-of-four selector — with readers for three public observation archives (NOAA
ISD-Lite, NOAA CO-OPS, USGS NWIS). The library is written in Verus: every codec is proved to
decode back exactly what it encoded, and every decoder is proved to return an error rather
than panic on truncated or corrupted input.

A point's value is carried as its raw IEEE-754 bit pattern, so round trips are exact down to
NaN payloads and the sign of zero. Arithmetic on floating-point values (choosing a block's
decimal scale, parsing a reading's text, dividing a stored integer by its unit) lives in the
application around the library.

## Layout

```
src/bits.rs              bit-level writer and reader, varints, zigzag, sign extension
src/codec/mod.rs         block framing, the delta-of-delta state, decoding by tag byte
src/codec/dod.rs         delta-of-delta buckets, shared by every codec
src/codec/gorilla.rs     XOR with a reusable significant-bit window
src/codec/decimal.rs     scaled integers under delta-of-delta, with a Gorilla fallback
src/codec/chimp.rs       bucketed leading zeros, explicit trailing zeros
src/codec/chimp128.rs    the same, XORed against the best of the last 128 values
src/codec/auto.rs        every codec, keeping the smallest block
src/dataset.rs           civil dates, `YYYY-MM-DD HH:MM` timestamps
src/dataset/text.rs      lines, splitting, trimming and integer parsing as `str` does them
src/dataset/isd_lite.rs  NOAA ISD-Lite rows and series
src/dataset/coops.rs     NOAA CO-OPS records
src/dataset/usgs.rs      USGS RDB tables
src/report.rs            thousands separators for reports
app/                     f64 points, the `Codec` trait, and the benchmark binary
tests/                   round trips, corruption, and the archives' sample files
```

A block is a tag byte naming its codec, then a big-endian bit stream, zero-padded to a
whole byte: a 32-bit point count, a 64-bit first timestamp and first value, then for each
further point a delta-of-delta timestamp (one bit for zero, buckets of 7, 9 and 12 bits, a
64-bit escape) and the codec's encoding of the value.
