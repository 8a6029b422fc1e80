use graupel::report::thousands;

#[test]
fn thousands_groups_digits_from_the_right() {
    assert_eq!(thousands(0), "0");
    assert_eq!(thousands(7), "7");
    assert_eq!(thousands(999), "999");
    assert_eq!(thousands(1_000), "1,000");
    assert_eq!(thousands(79_807), "79,807");
    assert_eq!(thousands(100_000), "100,000");
    assert_eq!(thousands(1_234_567), "1,234,567");
    assert_eq!(thousands(1_000_001), "1,000,001");
}

#[test]
fn thousands_handles_the_largest_count() {
    assert_eq!(
        thousands(18_446_744_073_709_551_615),
        "18,446,744,073,709,551,615"
    );
}
