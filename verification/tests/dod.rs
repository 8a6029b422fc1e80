use graupel::bits::{BitReader, BitWriter};
use graupel::codec::dod;

#[test]
fn every_bucket_boundary_survives_a_roundtrip() {
    let mut values = vec![0i64, 1, -1, i64::MAX, i64::MIN, 86_400, -86_400];
    for width in [7u32, 9, 12, 16, 20, 24, 32, 40] {
        let limit = 1i64 << (width - 1);
        values.extend([limit - 1, limit, -limit, -limit - 1]);
    }
    let mut w = BitWriter::new();
    for &v in &values {
        dod::write(&mut w, v);
    }
    let buf = w.finish();
    let mut r = BitReader::new(&buf);
    for &v in &values {
        assert_eq!(dod::read(&mut r).unwrap(), v);
    }
}

#[test]
fn a_steady_interval_costs_one_bit_per_point() {
    let mut w = BitWriter::new();
    for _ in 0..1000 {
        dod::write(&mut w, 0);
    }
    assert_eq!(w.bit_len(), 1000);
}

#[test]
fn each_bucket_costs_its_prefix_and_width() {
    for (value, bits) in [
        (1i64, 2 + 7),
        (-64, 2 + 7),
        (63, 2 + 7),
        (64, 3 + 9),
        (-256, 3 + 9),
        (2047, 4 + 12),
        (-2048, 4 + 12),
        (2048, 4 + 64),
        (3600, 4 + 64),
    ] {
        let mut w = BitWriter::new();
        dod::write(&mut w, value);
        assert_eq!(w.bit_len(), bits, "value {value}");
    }
}
