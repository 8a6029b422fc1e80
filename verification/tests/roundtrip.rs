//! Every codec has to be lossless for every input, so the interesting test is not one shape
//! of data but many: whatever the generator produces, every codec must give back what went in.

use graupel::codec::auto::Auto;
use graupel::codec::chimp::Chimp;
use graupel::codec::chimp128::Chimp128;
use graupel::codec::decimal::{Decimal, Scaled};
use graupel::codec::gorilla::Gorilla;
use graupel::codec::{decode, Decoded};
use graupel::Point;

struct Xorshift(u64);

impl Xorshift {
    fn next(&mut self) -> u64 {
        self.0 ^= self.0 << 13;
        self.0 ^= self.0 >> 7;
        self.0 ^= self.0 << 17;
        self.0
    }

    fn below(&mut self, bound: u64) -> u64 {
        self.next() % bound
    }
}

fn encoders(points: &[Point], scaling: Option<&Scaled>) -> Vec<(&'static str, Vec<u8>)> {
    vec![
        ("gorilla", Gorilla.encode(points).unwrap()),
        ("decimal", Decimal.encode(points, scaling).unwrap()),
        ("chimp", Chimp.encode(points).unwrap()),
        ("chimp128", Chimp128.encode(points).unwrap()),
        ("auto", Auto.encode(points, scaling).unwrap()),
    ]
}

fn assert_all_codecs_roundtrip(points: &[Point], scaling: Option<&Scaled>, label: &str) {
    for (name, block) in encoders(points, scaling) {
        match decode(&block).unwrap_or_else(|e| panic!("{label}: {name} failed to decode: {e:?}")) {
            Decoded::Points(restored) => assert_eq!(restored, points, "{label}: {name} lost data"),
            Decoded::Scaled(scale, restored) => {
                let sc = scaling.expect("a decimal block needs a scale");
                assert_eq!(scale, sc.scale, "{label}: {name} changed the scale");
                assert_eq!(restored.len(), points.len(), "{label}: {name} lost points");
                for ((point, back), &value) in points.iter().zip(&restored).zip(&sc.values) {
                    assert_eq!(back.timestamp, point.timestamp, "{label}: {name} lost a timestamp");
                    assert_eq!(back.value, value, "{label}: {name} lost a scaled value");
                }
            }
        }
    }
}

#[test]
fn tenth_precision_series_with_gaps() {
    let mut rng = Xorshift(0x2026_0806);
    for series in 0..200 {
        let length = rng.below(400) as usize + 1;
        let mut timestamp = 1_600_000_000i64;
        let mut tenths = rng.below(600) as i64 - 300;
        let mut scaled = Vec::with_capacity(length);
        let points: Vec<Point> = (0..length)
            .map(|_| {
                timestamp += if rng.below(20) == 0 {
                    3_600 * (rng.below(48) as i64 + 1)
                } else {
                    3_600
                };
                tenths += rng.below(9) as i64 - 4;
                scaled.push(tenths);
                Point::new(timestamp, (tenths as f64 / 10.0).to_bits())
            })
            .collect();
        let scaling = Scaled { scale: 1, values: scaled };
        assert_all_codecs_roundtrip(&points, Some(&scaling), &format!("tenths series {series}"));
    }
}

#[test]
fn arbitrary_bit_patterns() {
    let mut rng = Xorshift(0xDEAD_BEEF);
    for series in 0..200 {
        let length = rng.below(200) as usize + 1;
        let points: Vec<Point> = (0..length)
            .map(|_| Point::new(rng.next() as i64, rng.next()))
            .collect();
        assert_all_codecs_roundtrip(&points, None, &format!("random bits series {series}"));
    }
}

#[test]
fn values_that_only_differ_in_the_last_mantissa_bit() {
    let mut value = 1.0f64;
    let points: Vec<Point> = (0..500)
        .map(|i| {
            value = f64::from_bits(value.to_bits() + 1);
            Point::new(1_600_000_000 + i * 60, value.to_bits())
        })
        .collect();
    assert_all_codecs_roundtrip(&points, None, "adjacent floats");
}

#[test]
fn a_constant_series_of_every_length_up_to_a_hundred() {
    for length in 0..100 {
        let points: Vec<Point> = (0..length)
            .map(|i| Point::new(1_600_000_000 + i as i64 * 3_600, 15.5f64.to_bits()))
            .collect();
        let scaling = Scaled { scale: 1, values: vec![155; length] };
        assert_all_codecs_roundtrip(&points, Some(&scaling), &format!("constant length {length}"));
    }
}

#[test]
fn timestamps_going_backwards_are_still_lossless() {
    let points: Vec<Point> = (0..200)
        .map(|i| Point::new(1_600_000_000 - i * 900, 3.3f64.to_bits()))
        .collect();
    let scaling = Scaled { scale: 1, values: vec![33; 200] };
    assert_all_codecs_roundtrip(&points, Some(&scaling), "descending timestamps");
}

fn truncation_series(seed: u64) -> (Vec<Point>, Scaled) {
    let mut rng = Xorshift(seed);
    let scaled: Vec<i64> = (0..300).map(|_| rng.below(1000) as i64).collect();
    let points = (0..300)
        .map(|i| Point::new(1_600_000_000 + i as i64 * 3_600, (scaled[i] as f64 / 10.0).to_bits()))
        .collect();
    (points, Scaled { scale: 1, values: scaled })
}

#[test]
fn truncating_a_block_anywhere_never_panics() {
    let (points, scaling) = truncation_series(0x0BAD_C0DE);
    for (_, block) in encoders(&points, Some(&scaling)) {
        for cut in 0..block.len() {
            let _ = decode(&block[..cut]);
        }
    }
}

#[test]
fn corrupted_blocks_never_panic() {
    let (points, scaling) = truncation_series(0xFEED_FACE);
    let mut rng = Xorshift(0xFEED_FACE);
    for (_, block) in encoders(&points, Some(&scaling)) {
        for _ in 0..2_000 {
            let mut corrupted = block.clone();
            let index = rng.below(corrupted.len() as u64) as usize;
            corrupted[index] ^= 1 << rng.below(8);
            let _ = decode(&corrupted);
        }
    }
}
