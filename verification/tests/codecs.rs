use graupel::codec::chimp::{leading_index, leading_round, Chimp};
use graupel::codec::chimp128::{Chimp128, Chimp128Writer, KEY_MASK};
use graupel::codec::decimal::{Decimal, Scaled, ScaledPoint};
use graupel::codec::gorilla::Gorilla;
use graupel::bits::BitWriter;
use graupel::codec::{decode, Decoded, TAG_CHIMP, TAG_DECIMAL, TAG_GORILLA};
use graupel::{Error, Point};
use std::f64::consts::{E, LN_2, PI, SQRT_2, TAU};

fn p(timestamp: i64, value: f64) -> Point {
    Point::new(timestamp, value.to_bits())
}

fn points_of(block: &[u8]) -> Vec<Point> {
    match decode(block).unwrap() {
        Decoded::Points(points) => points,
        Decoded::Scaled(..) => panic!("expected a block of bit patterns"),
    }
}

fn gorilla_roundtrip(points: &[Point]) {
    let block = Gorilla.encode(points).unwrap();
    assert_eq!(points_of(&block), points);
}

fn chimp_roundtrip(points: &[Point]) {
    let block = Chimp.encode(points).unwrap();
    assert_eq!(points_of(&block), points);
}

fn chimp128_roundtrip(points: &[Point]) {
    let block = Chimp128.encode(points).unwrap();
    assert_eq!(points_of(&block), points);
}

fn every_branch() -> Vec<Point> {
    vec![
        p(0, 1.0),
        p(3600, 1.0),
        p(7200, 1.5),
        p(10800, 1.5000000001),
        p(14400, -273.15),
        p(18000, 1e300),
        p(21600, f64::NAN),
        p(25200, f64::INFINITY),
        p(28800, -0.0),
        p(32400, 0.0),
    ]
}

fn station_shaped(n: i64) -> Vec<Point> {
    (0..n)
        .map(|i| {
            let daily = (i as f64 / 24.0 * std::f64::consts::TAU).sin() * 6.0;
            p(1_700_000_000 + i * 3600, ((12.0 + daily) * 10.0).round() / 10.0)
        })
        .collect()
}

#[test]
fn gorilla_empty_and_single_point_blocks() {
    gorilla_roundtrip(&[]);
    gorilla_roundtrip(&[p(1_700_000_000, 21.5)]);
}

#[test]
fn a_steady_temperature_series() {
    let points: Vec<Point> = (0..500)
        .map(|i| p(1_700_000_000 + i * 3600, 12.0 + (i % 7) as f64 * 0.1))
        .collect();
    gorilla_roundtrip(&points);
}

#[test]
fn an_unchanging_series_costs_two_bits_per_point() {
    let points: Vec<Point> = (0..1000).map(|i| p(1_700_000_000 + i * 3600, 4.2)).collect();
    let block = Gorilla.encode(&points).unwrap();
    let expected_bits: usize = 32 // point count
        + 64 // first timestamp
        + 64 // first value
        + 68 // second timestamp: an hourly step overflows every narrow bucket
        + 1 // second value, unchanged
        + 998 * 2; // steady interval and unchanged value, one bit each
    assert_eq!(block.len(), 1 + expected_bits.div_ceil(8));
}

#[test]
fn extreme_and_special_values() {
    gorilla_roundtrip(&[
        p(0, 0.0),
        p(1, -0.0),
        p(2, f64::NAN),
        p(3, f64::INFINITY),
        p(4, f64::NEG_INFINITY),
        p(5, f64::MIN_POSITIVE),
        p(6, f64::MAX),
        p(7, f64::MIN),
        p(i64::MAX, 1.0),
        p(i64::MIN, 1.0),
    ]);
}

#[test]
fn gorilla_truncated_blocks_are_rejected_without_panicking() {
    let points: Vec<Point> = (0..50).map(|i| p(1_700_000_000 + i * 3600, i as f64 * 1.7)).collect();
    let block = Gorilla.encode(&points).unwrap();
    for cut in 1..block.len() {
        let _ = decode(&block[..cut]);
    }
}

#[test]
fn chimp_empty_and_single_point_blocks() {
    chimp_roundtrip(&[]);
    chimp_roundtrip(&[p(1_700_000_000, 21.5)]);
}

#[test]
fn chimp_every_branch_gets_exercised() {
    chimp_roundtrip(&every_branch());
}

#[test]
fn the_leading_table_agrees_with_the_rounding_table() {
    for leading in 0..64u32 {
        let rounded = leading_round(leading_index(leading) as usize);
        assert!(rounded <= leading, "rounding must never overstate leading zeros");
        let next = (0..8usize).map(leading_round).find(|&candidate| candidate > rounded);
        if let Some(next) = next {
            assert!(leading < next, "leading {leading} should have rounded to {next}");
        }
    }
}

#[test]
fn a_long_realistic_series() {
    chimp_roundtrip(&station_shaped(5000));
}

#[test]
fn chimp_truncated_blocks_are_rejected_without_panicking() {
    let points: Vec<Point> = (0..50).map(|i| p(1_700_000_000 + i * 3600, i as f64 * 1.7)).collect();
    let block = Chimp.encode(&points).unwrap();
    for cut in 1..block.len() {
        let _ = decode(&block[..cut]);
    }
}

#[test]
fn chimp128_empty_and_single_point_blocks() {
    chimp128_roundtrip(&[]);
    chimp128_roundtrip(&[p(1_700_000_000, 21.5)]);
}

#[test]
fn chimp128_every_branch_gets_exercised() {
    chimp128_roundtrip(&every_branch());
}

#[test]
fn a_value_repeating_outside_the_window_still_decodes() {
    let mut points: Vec<Point> = (0..400).map(|i| p(1_700_000_000 + i * 3600, i as f64 * 0.25)).collect();
    points[399].value = points[0].value;
    chimp128_roundtrip(&points);
}

#[test]
fn beats_plain_chimp_when_a_recent_value_repeats_exactly() {
    let cycle = [PI, E, SQRT_2, LN_2, TAU];
    let points: Vec<Point> = (0..4000)
        .map(|i| p(1_700_000_000 + i as i64 * 3600, cycle[i % cycle.len()]))
        .collect();
    let windowed = Chimp128.encode(&points).unwrap().len();
    let plain = Chimp.encode(&points).unwrap().len();
    assert!(windowed < plain, "chimp128 {windowed} bytes should beat chimp {plain} bytes");
}

/// Whole numbers all collide on key zero, so the candidate degenerates to the previous
/// value while still costing 7 bits to name.
#[test]
fn whole_numbers_collide_on_key_zero_but_tenths_do_not() {
    for whole in [1013.0f64, 250.0, 0.0, -40.0] {
        assert_eq!(whole.to_bits() & KEY_MASK, 0, "{whole} should collide");
    }
    for tenth in [8.2f64, 7.9, -3.1, 12.4] {
        assert_ne!(tenth.to_bits() & KEY_MASK, 0, "{tenth} should have discriminating low bits");
    }
}

#[test]
fn chimp128_truncated_blocks_are_rejected_without_panicking() {
    let points: Vec<Point> = (0..300).map(|i| p(1_700_000_000 + i * 3600, i as f64 * 1.7)).collect();
    let block = Chimp128.encode(&points).unwrap();
    for cut in 1..block.len() {
        let _ = decode(&block[..cut]);
    }
}

fn tenths(n: i64) -> (Vec<Point>, Vec<i64>) {
    let scaled: Vec<i64> = (0..n).map(|i| 80 + (i % 30)).collect();
    let points = (0..n)
        .map(|i| p(1_700_000_000 + i * 3600, scaled[i as usize] as f64 / 10.0))
        .collect();
    (points, scaled)
}

#[test]
fn a_decimal_block_carries_its_scale_and_scaled_values() {
    let (points, scaled) = tenths(200);
    let scaling = Scaled { scale: 1, values: scaled.clone() };
    let block = Decimal.encode(&points, Some(&scaling)).unwrap();
    assert_eq!(block[0], TAG_DECIMAL);
    assert_eq!(block[5], 1);
    match decode(&block).unwrap() {
        Decoded::Scaled(scale, back) => {
            assert_eq!(scale, 1);
            let expected: Vec<ScaledPoint> = points
                .iter()
                .zip(&scaled)
                .map(|(p, &v)| ScaledPoint { timestamp: p.timestamp, value: v })
                .collect();
            assert_eq!(back, expected);
        }
        Decoded::Points(_) => panic!("expected a decimal block"),
    }
}

#[test]
fn decimal_without_a_scale_writes_a_gorilla_block() {
    let (points, _) = tenths(100);
    let block = Decimal.encode(&points, None).unwrap();
    assert_eq!(block[0], TAG_GORILLA);
    assert_eq!(block, Gorilla.encode(&points).unwrap());
    assert_eq!(points_of(&block), points);
}

#[test]
fn an_empty_decimal_block_keeps_its_scale() {
    let scaling = Scaled { scale: 3, values: vec![] };
    let block = Decimal.encode(&[], Some(&scaling)).unwrap();
    assert_eq!(block, vec![TAG_DECIMAL, 0, 0, 0, 0, 3]);
    match decode(&block).unwrap() {
        Decoded::Scaled(scale, back) => {
            assert_eq!(scale, 3);
            assert!(back.is_empty());
        }
        Decoded::Points(_) => panic!("expected a decimal block"),
    }
}

#[test]
fn decimal_beats_gorilla_on_station_shaped_integers() {
    let points = station_shaped(2000);
    let scaled: Vec<i64> = points
        .iter()
        .map(|p| (f64::from_bits(p.value) * 10.0).round() as i64)
        .collect();
    let scaling = Scaled { scale: 1, values: scaled };
    let decimal = Decimal.encode(&points, Some(&scaling)).unwrap().len();
    let gorilla = Gorilla.encode(&points).unwrap().len();
    assert!(decimal < gorilla, "decimal {decimal} bytes should beat gorilla {gorilla} bytes");
}

#[test]
fn an_empty_block_is_an_unexpected_end() {
    assert_eq!(decode(&[]).err(), Some(Error::UnexpectedEnd));
}

#[test]
fn an_unknown_tag_is_rejected() {
    assert_eq!(decode(&[9, 0, 0, 0, 0]).err(), Some(Error::UnknownEncoding(9)));
}

#[test]
fn reusing_a_window_before_any_was_stored_is_malformed() {
    // Two points: the second value is marked changed with a reused window, but no window
    // has been stored yet.
    let mut w = graupel::bits::BitWriter::new();
    w.write_bits(2, 32);
    w.write_bits(0, 64);
    w.write_bits(0, 64);
    w.write_bit(false); // timestamp delta-of-delta 0
    w.write_bit(true);
    w.write_bit(false);
    let mut block = vec![TAG_GORILLA];
    block.extend(w.finish());
    assert_eq!(decode(&block).err(), Some(Error::MalformedBlock));
}

#[test]
fn a_decimal_scale_above_seventeen_is_malformed() {
    assert_eq!(decode(&[TAG_DECIMAL, 0, 0, 0, 0, 18]).err(), Some(Error::MalformedBlock));
}

#[test]
fn a_chimp_window_wider_than_a_word_is_malformed() {
    // One point after the first, value flag 01 with bucket 7 (24 leading zeros) and a width
    // of 63: 24 + 63 > 64.
    let mut w = graupel::bits::BitWriter::new();
    w.write_bits(2, 32);
    w.write_bits(0, 64);
    w.write_bits(0, 64);
    w.write_bit(false);
    w.write_bits(0b01, 2);
    w.write_bits(7, 3);
    w.write_bits(63, 6);
    let mut block = vec![TAG_CHIMP];
    block.extend(w.finish());
    assert_eq!(decode(&block).err(), Some(Error::MalformedBlock));
}

#[test]
fn the_names_match_the_codecs() {
    assert_eq!(Gorilla.name(), "gorilla");
    assert_eq!(Decimal.name(), "decimal");
    assert_eq!(Chimp.name(), "chimp");
    assert_eq!(Chimp128.name(), "chimp128");
}

const POW10: [f64; 18] = [
    1e0, 1e1, 1e2, 1e3, 1e4, 1e5, 1e6, 1e7, 1e8, 1e9, 1e10, 1e11, 1e12, 1e13, 1e14, 1e15, 1e16,
    1e17,
];

/// Encodes with `Decimal` at the given scaling and checks the block decodes to the same
/// values, a decimal block's integers divided back by its power of ten.
fn decimal_roundtrip(points: &[Point], scaling: Option<Scaled>) -> Vec<u8> {
    let block = Decimal.encode(points, scaling.as_ref()).unwrap();
    let back: Vec<Point> = match decode(&block).unwrap() {
        Decoded::Points(back) => back,
        Decoded::Scaled(scale, back) => back
            .iter()
            .map(|s| p(s.timestamp, s.value as f64 / POW10[scale as usize]))
            .collect(),
    };
    assert_eq!(back, points);
    block
}

#[test]
fn decimal_empty_and_single_point_blocks() {
    decimal_roundtrip(&[], Some(Scaled { scale: 0, values: vec![] }));
    decimal_roundtrip(
        &[p(1_700_000_000, 21.5)],
        Some(Scaled { scale: 1, values: vec![215] }),
    );
}

#[test]
fn tenths_of_a_degree_pick_scale_one() {
    let points: Vec<Point> = (0..200)
        .map(|i| p(1_700_000_000 + i * 3600, 8.0 + (i % 30) as f64 / 10.0))
        .collect();
    let values = (0..200).map(|i| 80 + i % 30).collect();
    let block = decimal_roundtrip(&points, Some(Scaled { scale: 1, values }));
    assert_eq!(block[0], TAG_DECIMAL);
    assert_eq!(block[5], 1);
}

#[test]
fn integers_pick_scale_zero() {
    let points: Vec<Point> = (0..100)
        .map(|i| p(1_700_000_000 + i * 3600, (950 + i % 40) as f64))
        .collect();
    let values = (0..100).map(|i| 950 + i % 40).collect();
    let block = decimal_roundtrip(&points, Some(Scaled { scale: 0, values }));
    assert_eq!(block[5], 0);
}

#[test]
fn a_single_awkward_value_forces_the_whole_block_to_gorilla() {
    let mut points: Vec<Point> = (0..100)
        .map(|i| p(1_700_000_000 + i * 3600, 8.0 + (i % 30) as f64 / 10.0))
        .collect();
    points[50].value = PI.to_bits();
    let block = decimal_roundtrip(&points, None);
    assert_eq!(block[0], TAG_GORILLA);
}

#[test]
fn special_values_fall_back_rather_than_losing_data() {
    for odd in [f64::NAN, f64::INFINITY, f64::NEG_INFINITY, -0.0, 1e300] {
        let points = vec![p(0, 1.5), p(3600, odd)];
        let block = decimal_roundtrip(&points, None);
        assert_eq!(block[0], TAG_GORILLA, "value {odd:?} should not scale");
    }
}

#[test]
fn beats_gorilla_on_station_shaped_data() {
    let points = station_shaped(2000);
    let values: Vec<i64> = (0..2000)
        .map(|i| {
            let daily = (i as f64 / 24.0 * TAU).sin() * 6.0;
            ((12.0 + daily) * 10.0).round() as i64
        })
        .collect();
    let decimal = Decimal
        .encode(&points, Some(&Scaled { scale: 1, values }))
        .unwrap()
        .len();
    let gorilla = Gorilla.encode(&points).unwrap().len();
    assert!(
        decimal < gorilla,
        "decimal {decimal} bytes should beat gorilla {gorilla} bytes"
    );
}

#[test]
fn a_chimp128_repeat_costs_nine_bits_naming_the_previous_slot() {
    let values: Vec<u64> = (0..300u64)
        .map(|i| i.wrapping_mul(0x9E37_79B9_7F4A_7C15) ^ 0x4010_0000_0000_0000)
        .collect();
    let mut writer = Chimp128Writer::new(values[0]);
    let mut w = BitWriter::new();
    for &v in &values[1..] {
        writer.write(&mut w, v);
        let before = w.bit_len();
        writer.write(&mut w, v);
        assert_eq!(w.bit_len(), before + 9);
    }
    let mut w = BitWriter::new();
    let mut writer = Chimp128Writer::new(7);
    for _ in 0..130 {
        writer.write(&mut w, 7);
    }
    // 130 repeats of slot 0, 1, ..., 127, 0, 1: each `00` and the 7-bit slot.
    let bytes = w.finish();
    let bit = |i: usize| (bytes[i / 8] >> (7 - i % 8)) & 1 == 1;
    for k in 0..130usize {
        let slot = (0..7).fold(0usize, |acc, j| acc * 2 + bit(9 * k + 2 + j) as usize);
        assert!(!bit(9 * k) && !bit(9 * k + 1));
        assert_eq!(slot, k % 128);
    }
}

#[test]
fn a_cut_block_runs_out_of_stream_at_every_length() {
    let points = every_branch();
    let (tenths_points, tenths_values) = tenths(50);
    let blocks = vec![
        Gorilla.encode(&points).unwrap(),
        Chimp.encode(&points).unwrap(),
        Chimp128.encode(&points).unwrap(),
        Decimal
            .encode(&tenths_points, Some(&Scaled { scale: 1, values: tenths_values }))
            .unwrap(),
        Gorilla.encode(&[]).unwrap(),
    ];
    for block in &blocks {
        for cut in 0..block.len() {
            assert_eq!(decode(&block[..cut]).err(), Some(Error::UnexpectedEnd));
        }
    }
}
