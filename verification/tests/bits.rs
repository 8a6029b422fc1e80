use graupel::bits::{fits_in, sign_extend, unzigzag, zigzag, BitReader, BitWriter};
use graupel::Error;

#[test]
fn single_bits_survive_a_roundtrip() {
    let pattern = [true, false, true, true, false, false, false, true, true];
    let mut w = BitWriter::new();
    for &bit in &pattern {
        w.write_bit(bit);
    }
    let buf = w.finish();
    let mut r = BitReader::new(&buf);
    for &bit in &pattern {
        assert_eq!(r.read_bit().unwrap(), bit);
    }
}

#[test]
fn values_survive_a_roundtrip_across_byte_boundaries() {
    let cases: [(u64, u32); 6] = [
        (0, 1),
        (1, 1),
        (0b101_1010, 7),
        (0xDEAD_BEEF, 32),
        (u64::MAX, 64),
        (0x1234_5678_9ABC_DEF0, 64),
    ];
    for skew in 0..8 {
        let mut w = BitWriter::new();
        w.write_bits(0, skew);
        for (value, count) in cases {
            w.write_bits(value, count);
        }
        let buf = w.finish();
        let mut r = BitReader::new(&buf);
        r.read_bits(skew).unwrap();
        for (value, count) in cases {
            assert_eq!(r.read_bits(count).unwrap(), value, "skew {skew}");
        }
    }
}

#[test]
fn reading_past_the_end_is_an_error() {
    let buf = [0xFFu8];
    let mut r = BitReader::new(&buf);
    assert_eq!(r.read_bits(8).unwrap(), 0xFF);
    assert_eq!(r.read_bit(), Err(Error::UnexpectedEnd));
}

#[test]
fn bit_len_tracks_partial_bytes() {
    let mut w = BitWriter::new();
    assert_eq!(w.bit_len(), 0);
    w.write_bits(0, 3);
    assert_eq!(w.bit_len(), 3);
    w.write_bits(0, 8);
    assert_eq!(w.bit_len(), 11);
}

#[test]
fn sign_extension_recovers_negative_values() {
    assert_eq!(sign_extend(0b111_1111, 7), -1);
    assert_eq!(sign_extend(0b100_0000, 7), -64);
    assert_eq!(sign_extend(0b011_1111, 7), 63);
    assert_eq!(sign_extend(u64::MAX, 64), -1);
}

#[test]
fn varints_survive_a_roundtrip_at_every_width() {
    let mut values = vec![0u64, 1, 127, 128, 16_383, 16_384, u64::MAX];
    values.extend((0..64).map(|shift| 1u64 << shift));
    for skew in 0..8 {
        let mut w = BitWriter::new();
        w.write_bits(0, skew);
        for &v in &values {
            w.write_varint(v);
        }
        let buf = w.finish();
        let mut r = BitReader::new(&buf);
        r.read_bits(skew).unwrap();
        for &v in &values {
            assert_eq!(r.read_varint().unwrap(), v, "skew {skew}");
        }
    }
}

#[test]
fn a_unix_timestamp_costs_five_bytes_not_eight() {
    let mut w = BitWriter::new();
    w.write_varint(zigzag(1_672_531_200));
    assert_eq!(w.bit_len(), 40);
}

#[test]
fn zigzag_keeps_small_negatives_small() {
    for value in [0i64, 1, -1, 63, -64, i64::MAX, i64::MIN] {
        assert_eq!(unzigzag(zigzag(value)), value);
    }
    assert!(
        zigzag(-1) < 128,
        "small negatives must fit one varint group"
    );
}

#[test]
fn a_truncated_varint_is_an_error_not_a_panic() {
    let buf = [0xFFu8; 4];
    assert!(BitReader::new(&buf).read_varint().is_err());
}

#[test]
fn range_check_matches_two_complement_limits() {
    assert!(fits_in(63, 7));
    assert!(!fits_in(64, 7));
    assert!(fits_in(-64, 7));
    assert!(!fits_in(-65, 7));
    assert!(fits_in(i64::MIN, 64));
}

#[test]
fn zigzag_codes_follow_the_interleaving() {
    assert_eq!(zigzag(0), 0);
    assert_eq!(zigzag(-1), 1);
    assert_eq!(zigzag(1), 2);
    assert_eq!(zigzag(-2), 3);
    assert_eq!(zigzag(i64::MAX), u64::MAX - 1);
    assert_eq!(zigzag(i64::MIN), u64::MAX);
    assert_eq!(unzigzag(5), -3);
}

#[test]
fn sign_extension_of_a_zero_or_full_width_keeps_the_word() {
    assert_eq!(sign_extend(0x8000_0000_0000_0001, 0), i64::MIN + 1);
    assert_eq!(sign_extend(0xFF, 8), -1);
    assert_eq!(sign_extend(0x1FF, 8), -1);
    assert_eq!(sign_extend(0x17F, 8), 127);
}

#[test]
fn a_finished_buffer_pads_the_last_byte_with_zeros() {
    let mut w = BitWriter::new();
    w.write_bits(0b101, 3);
    assert_eq!(w.finish(), vec![0b1010_0000]);
    let mut w = BitWriter::default();
    w.write_bits(0xABCD, 16);
    assert_eq!(w.finish(), vec![0xAB, 0xCD]);
}

#[test]
fn a_varint_writes_seven_bits_per_group_low_first() {
    let mut w = BitWriter::new();
    w.write_varint(300);
    assert_eq!(w.finish(), vec![0xAC, 0x02]);
}

#[test]
fn a_varint_of_ten_continued_groups_is_malformed() {
    let buf = [0xFFu8; 10];
    assert_eq!(BitReader::new(&buf).read_varint(), Err(Error::MalformedBlock));
    let buf = [0xFFu8; 9];
    assert_eq!(BitReader::new(&buf).read_varint(), Err(Error::UnexpectedEnd));
}

#[test]
fn a_failed_read_leaves_the_position_alone() {
    let buf = [0b1100_0000u8];
    let mut r = BitReader::new(&buf);
    assert_eq!(r.read_bits(9), Err(Error::UnexpectedEnd));
    assert_eq!(r.read_bits(2), Ok(0b11));
}

#[test]
fn a_cut_varint_runs_out_and_an_endless_one_is_malformed() {
    assert_eq!(
        BitReader::new(&[0xFFu8; 4]).read_varint(),
        Err(Error::UnexpectedEnd)
    );
    assert_eq!(
        BitReader::new(&[0xFFu8; 10]).read_varint(),
        Err(Error::MalformedBlock)
    );
    assert_eq!(BitReader::new(&[]).read_varint(), Err(Error::UnexpectedEnd));
}
