use fcars_report::text::{decimal_string, fixed6_string, format_percentage, text_eq, text_less};

#[test]
fn decimal_string_writes_digits() {
    assert_eq!(decimal_string(0), "0");
    assert_eq!(decimal_string(7), "7");
    assert_eq!(decimal_string(10), "10");
    assert_eq!(decimal_string(1234567890), "1234567890");
    assert_eq!(decimal_string(u64::MAX as u128), u64::MAX.to_string());
}

#[test]
fn format_percentage_rounds_to_one_decimal() {
    assert_eq!(format_percentage(2, 5), "40.0%");
    assert_eq!(format_percentage(3, 5), "60.0%");
    assert_eq!(format_percentage(1, 3), "33.3%");
    assert_eq!(format_percentage(2, 3), "66.7%");
    assert_eq!(format_percentage(5, 5), "100.0%");
    assert_eq!(format_percentage(0, 5), "0.0%");
}

#[test]
fn format_percentage_of_nothing_is_zero() {
    assert_eq!(format_percentage(0, 0), "0.0%");
    assert_eq!(format_percentage(3, 0), "0.0%");
}

fn float_percentage(count: usize, total: usize) -> String {
    let value = if total == 0 { 0.0 } else { (count as f64 / total as f64) * 100.0 };
    format!("{value:.1}%")
}

#[test]
fn format_percentage_matches_float_formatting() {
    for total in 1..400usize {
        for count in 0..=total {
            assert_eq!(format_percentage(count, total), float_percentage(count, total), "{count}/{total}");
        }
    }
}

#[test]
fn format_percentage_follows_float_rounding_at_ties() {
    // 3/2000 is 0.15 exactly, but its binary64 value lies just below.
    assert_eq!(format_percentage(3, 2000), "0.1%");
    assert_eq!(format_percentage(3, 2000), float_percentage(3, 2000));
    assert_eq!(format_percentage(23, 80), float_percentage(23, 80));
    for total in [2000usize, 4000, 8000, 16000, 1_000_000] {
        for count in 0..=200usize {
            assert_eq!(format_percentage(count, total), float_percentage(count, total), "{count}/{total}");
        }
    }
}

#[test]
fn format_percentage_matches_float_formatting_on_large_counts() {
    let big: usize = 1 << 53;
    let cases = [
        (big + 1, big + 3),
        (big - 1, big + 1),
        (usize::MAX, usize::MAX),
        (1, usize::MAX),
        (usize::MAX / 3, usize::MAX),
        (usize::MAX, 7),
        (12345678901234567, 98765432109876543),
        (7, 3),
    ];
    for (count, total) in cases {
        assert_eq!(format_percentage(count, total), float_percentage(count, total), "{count}/{total}");
    }
}

#[test]
fn format_percentage_ties_go_to_even() {
    // 1/16 is 6.25% exactly
    assert_eq!(format_percentage(1, 16), "6.2%");
    // 3/16 is 18.75% exactly
    assert_eq!(format_percentage(3, 16), "18.8%");
}

#[test]
fn fixed6_string_writes_six_decimals() {
    assert_eq!(fixed6_string(970951), "0.970951");
    assert_eq!(fixed6_string(5), "0.000005");
    assert_eq!(fixed6_string(0), "0.000000");
    assert_eq!(fixed6_string(1_000_000), "1.000000");
    assert_eq!(fixed6_string(12_345_678), "12.345678");
}

#[test]
fn text_less_orders_by_code_point() {
    assert!(text_less("Hot", "Mild"));
    assert!(!text_less("Mild", "Hot"));
    assert!(text_less("Rain", "Rainy"));
    assert!(!text_less("Rainy", "Rainy"));
    assert!(text_less("", "a"));
    assert!(text_less("Zebra", "apple"));
    assert!(text_less("é", "ê"));
    assert_eq!(text_less("Sunny", "Overcast"), "Sunny" < "Overcast");
}

#[test]
fn text_eq_compares_strings() {
    assert!(text_eq("Play", "Play"));
    assert!(!text_eq("Play", "play"));
    assert!(!text_eq("Play", "Pla"));
    assert!(text_eq("", ""));
}
