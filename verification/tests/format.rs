use durs::format_size;

#[test]
fn plain_sizes_are_right_justified_to_twelve() {
    assert_eq!(format_size(0, false), "           0");
    assert_eq!(format_size(1000, false), "        1000");
    assert_eq!(format_size(6000, false), "        6000");
    assert_eq!(format_size(999_999_999_999, false), "999999999999");
}

#[test]
fn plain_sizes_wider_than_the_field_are_not_cut() {
    assert_eq!(format_size(1_000_000_000_000, false), "1000000000000");
    assert_eq!(format_size(u64::MAX, false), "18446744073709551615");
}

#[test]
fn human_readable_below_one_thousand_has_no_unit() {
    assert_eq!(format_size(0, true), "     0");
    assert_eq!(format_size(7, true), "     7");
    assert_eq!(format_size(999, true), "   999");
}

#[test]
fn human_readable_kilo() {
    assert_eq!(format_size(1_000, true), "    1K");
    assert_eq!(format_size(1_999, true), "    1K");
    assert_eq!(format_size(999_999, true), "  999K");
}

#[test]
fn human_readable_mega() {
    assert_eq!(format_size(1_000_000, true), "    1M");
    assert_eq!(format_size(999_999_999, true), "  999M");
}

#[test]
fn human_readable_truncates_instead_of_rounding() {
    assert_eq!(format_size(1_999_999, true), "    1M");
}

#[test]
fn human_readable_giga() {
    assert_eq!(format_size(1_000_000_000, true), "    1G");
    assert_eq!(format_size(12_345_678_901, true), "   12G");
    assert_eq!(format_size(999_999_999_999, true), "  999G");
}

#[test]
fn human_readable_tera() {
    assert_eq!(format_size(1_000_000_000_000, true), "    1T");
    assert_eq!(format_size(99_999_000_000_000_000, true), "99999T");
    assert_eq!(format_size(u64::MAX, true), "18446744T");
}

#[test]
fn formatting_agrees_with_the_standard_formatter() {
    let samples: [u64; 9] = [0, 9, 10, 99, 100, 12_345, 1_000_000, 4_294_967_296, u64::MAX];
    for size in samples {
        assert_eq!(format_size(size, false), format!("{: >12}", size));
    }
}

#[test]
fn width_is_fixed_while_the_number_fits() {
    for size in [0u64, 1, 999, 1_000, 123_456, 999_999_999_999] {
        assert_eq!(format_size(size, false).len(), 12);
    }
    for size in [0u64, 999, 1_000, 999_999, 1_000_000, 999_999_999_999, 99_999_999_999_999_999] {
        assert_eq!(format_size(size, true).len(), 6);
    }
    assert_eq!(format_size(100_000_000_000_000_000, true).len(), 7);
}
