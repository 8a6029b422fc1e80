use graupel::codec::auto::Auto;
use graupel::codec::chimp::Chimp;
use graupel::codec::chimp128::Chimp128;
use graupel::codec::decimal::{Decimal, Scaled};
use graupel::codec::gorilla::Gorilla;
use graupel::codec::{decode, Decoded, TAG_CHIMP, TAG_DECIMAL};
use graupel::Point;

fn p(timestamp: i64, value: f64) -> Point {
    Point::new(timestamp, value.to_bits())
}

#[test]
fn picks_decimal_for_tenths() {
    let points: Vec<Point> = (0..500)
        .map(|i| p(1_700_000_000 + i * 3600, 8.0 + (i % 40) as f64 / 10.0))
        .collect();
    let scaling = Scaled { scale: 1, values: (0..500).map(|i| 80 + i % 40).collect() };
    let block = Auto.encode(&points, Some(&scaling)).unwrap();
    assert_eq!(block[0], TAG_DECIMAL);
    match decode(&block).unwrap() {
        Decoded::Scaled(scale, back) => {
            assert_eq!(scale, 1);
            for (point, scaled) in points.iter().zip(&back) {
                assert_eq!(point.timestamp, scaled.timestamp);
                assert_eq!(f64::from_bits(point.value), scaled.value as f64 / 10.0);
            }
        }
        Decoded::Points(_) => panic!("expected a decimal block"),
    }
}

#[test]
fn picks_an_xor_codec_when_no_decimal_scale_exists() {
    let mut value = 1.0f64;
    let points: Vec<Point> = (0..500)
        .map(|i| {
            value = f64::from_bits(value.to_bits() + 1);
            p(1_700_000_000 + i * 60, value)
        })
        .collect();
    let block = Auto.encode(&points, None).unwrap();
    assert_ne!(block[0], TAG_DECIMAL);
    match decode(&block).unwrap() {
        Decoded::Points(back) => assert_eq!(back, points),
        Decoded::Scaled(..) => panic!("expected a block of bit patterns"),
    }
}

#[test]
fn never_loses_to_any_single_codec() {
    let cases: [(Vec<Point>, Option<Scaled>); 3] = [
        (
            (0..300).map(|i| p(i * 3600, (i % 360) as f64)).collect(),
            Some(Scaled { scale: 0, values: (0..300).map(|i| i % 360).collect() }),
        ),
        (
            (0..300).map(|i| p(i * 3600, 8.0 + (i % 40) as f64 / 10.0)).collect(),
            Some(Scaled { scale: 1, values: (0..300).map(|i| 80 + i % 40).collect() }),
        ),
        ((0..300).map(|i| p(i * 3600, (i as f64).sqrt())).collect(), None),
    ];
    for (points, scaling) in &cases {
        let auto = Auto.encode(points, scaling.as_ref()).unwrap().len();
        let others = [
            ("gorilla", Gorilla.encode(points).unwrap().len()),
            ("decimal", Decimal.encode(points, scaling.as_ref()).unwrap().len()),
            ("chimp", Chimp.encode(points).unwrap().len()),
            ("chimp128", Chimp128.encode(points).unwrap().len()),
        ];
        for (name, other) in others {
            assert!(auto <= other, "auto {auto} lost to {name} {other}");
        }
    }
}

#[test]
fn tag_dispatch_survives_the_choice() {
    let points: Vec<Point> = (0..200).map(|i| p(i * 3600, ((i * 7) % 13) as f64 * 0.125)).collect();
    let scaling = Scaled { scale: 3, values: (0..200).map(|i| ((i * 7) % 13) * 125).collect() };
    let block = Auto.encode(&points, Some(&scaling)).unwrap();
    assert!(block[0] <= TAG_CHIMP.max(3));
    match decode(&block).unwrap() {
        Decoded::Points(back) => assert_eq!(back, points),
        Decoded::Scaled(scale, back) => {
            for (point, scaled) in points.iter().zip(&back) {
                assert_eq!(point.timestamp, scaled.timestamp);
                assert_eq!(
                    f64::from_bits(point.value),
                    scaled.value as f64 / 10f64.powi(scale as i32)
                );
            }
        }
    }
}

#[test]
fn ties_keep_the_earliest_codec() {
    // A single point costs the same in every codec but decimal; Gorilla comes first.
    let points = vec![p(0, 2.5)];
    let block = Auto.encode(&points, None).unwrap();
    assert_eq!(block, Gorilla.encode(&points).unwrap());
    assert_eq!(Auto.name(), "auto");
}
