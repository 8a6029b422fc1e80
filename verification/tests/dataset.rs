use graupel::dataset::{datetime_fields, epoch_fits, parse_datetime, to_epoch};

#[test]
fn dataset_known_dates_match_their_epoch_seconds() {
    assert_eq!(to_epoch(1970, 1, 1, 0), 0);
    assert_eq!(to_epoch(2000, 3, 1, 0), 951_868_800);
    assert_eq!(to_epoch(2023, 1, 1, 0), 1_672_531_200);
    assert_eq!(to_epoch(2024, 2, 29, 12), 1_709_208_000);
    assert_eq!(to_epoch(1969, 12, 31, 23), -3_600);
}

#[test]
fn mod_known_dates_match_their_epoch_seconds() {
    assert_eq!(to_epoch(1970, 1, 1, 0), 0);
    assert_eq!(to_epoch(2000, 3, 1, 0), 951_868_800);
    assert_eq!(to_epoch(2023, 1, 1, 0), 1_672_531_200);
    assert_eq!(to_epoch(2024, 2, 29, 12), 1_709_208_000);
    assert_eq!(to_epoch(1969, 12, 31, 23), -3_600);
}

#[test]
fn datetimes_parse_to_the_same_instants() {
    assert_eq!(parse_datetime("2023-01-01 00:00"), Some(1_672_531_200));
    assert_eq!(parse_datetime("2023-01-01 00:06"), Some(1_672_531_560));
    assert_eq!(parse_datetime(" 2024-02-29 12:00 "), Some(1_709_208_000));
}

#[test]
fn malformed_datetimes_are_rejected() {
    for bad in [
        "",
        "2023-01-01",
        "not a date",
        "2023-13-01 00:00",
        "2023-01-01 xx:00",
    ] {
        assert_eq!(parse_datetime(bad), None, "{bad:?} should not parse");
    }
}

#[test]
fn dates_before_the_epoch_and_before_year_zero_count_backwards() {
    assert_eq!(to_epoch(1969, 12, 31, 0), -86_400);
    assert_eq!(to_epoch(0, 3, 1, 0), -62_162_035_200);
    assert_eq!(to_epoch(-400, 3, 1, 0), -74_784_816_000);
    assert_eq!(to_epoch(-1, 12, 31, 0), -62_167_305_600);
    assert_eq!(to_epoch(1, 1, 1, 0), -62_135_596_800);
}

#[test]
fn leap_days_follow_the_gregorian_rules() {
    let day = 86_400;
    assert_eq!(to_epoch(2000, 3, 1, 0) - to_epoch(2000, 2, 28, 0), 2 * day);
    assert_eq!(to_epoch(1900, 3, 1, 0) - to_epoch(1900, 2, 28, 0), day);
    assert_eq!(to_epoch(2023, 3, 1, 0) - to_epoch(2023, 2, 28, 0), day);
    assert_eq!(to_epoch(2023, 5, 1, 0) - to_epoch(2023, 4, 1, 0), 30 * day);
    assert_eq!(to_epoch(2024, 1, 1, 0) - to_epoch(2023, 12, 1, 0), 31 * day);
    assert_eq!(to_epoch(2400, 3, 1, 0) - to_epoch(2400, 2, 1, 0), 29 * day);
    assert_eq!(to_epoch(2100, 3, 1, 0) - to_epoch(2100, 2, 1, 0), 28 * day);
}

#[test]
fn signs_and_extra_parts_are_read_as_str_parse_reads_them() {
    assert_eq!(parse_datetime("+2023-+01-+01 +00:+06"), Some(1_672_531_560));
    assert_eq!(parse_datetime("2023-01-01-99 00:06:59"), Some(1_672_531_560));
    assert_eq!(parse_datetime("\t2023-01-01 00:06\n"), Some(1_672_531_560));
    assert_eq!(parse_datetime("2023-01-01 -01:00"), Some(1_672_531_200 - 3_600));
    assert_eq!(parse_datetime("2023--01-01 00:00"), None);
    assert_eq!(parse_datetime("2023-01-01  00:00"), None);
    assert_eq!(parse_datetime("2023-01-01 00"), None);
    assert_eq!(parse_datetime("2023-00-01 00:00"), None);
    assert_eq!(parse_datetime("2023-01-32 00:00"), None);
    assert_eq!(parse_datetime("2023-01-+ 00:00"), None);
    assert_eq!(parse_datetime("2023-1\u{663}-01 00:00"), None);
}

#[test]
fn fields_come_out_before_they_are_combined() {
    assert_eq!(datetime_fields(" 2024-02-29 12:30 "), Some((2024, 2, 29, 12, 30)));
    assert_eq!(datetime_fields("2024-02-29"), None);
    assert_eq!(datetime_fields("99999999999999999999-01-01 00:00"), None);
}

#[test]
fn instants_beyond_sixty_four_bits_are_detected() {
    assert!(epoch_fits(2023, 1, 1, 0, 6));
    assert!(!epoch_fits(i64::MAX, 1, 1, 0, 0));
    assert!(!epoch_fits(2023, 1, 1, i64::MAX, 0));
    assert!(!epoch_fits(2023, 1, 1, 0, i64::MIN));
    assert!(epoch_fits(-1_000_000, 6, 15, -5, 30));
}
