// Scalar parser behaviour: exact values, rejection cases, and the
// format/parse round trips.

use mpd_parser::errors::ParsingError;
use mpd_parser::utils::{
    format_byte_range, format_iso_8601, parse_bool, parse_byte_range, parse_f64, parse_i64,
    parse_iso_8601_duration, parse_maybe_division, parse_u64, parse_u64_or_bool,
    u32_to_u8_slice_be, u64_to_dec,
};
use mpd_parser::values::{AttrNum, Ratio};

fn whole(n: u128) -> Ratio {
    Ratio { neg: false, num: n, den: 1 }
}

fn nanos(num: u128) -> Ratio {
    Ratio { neg: false, num, den: 1_000_000_000 }
}

#[test]
fn test_parse_8601_duration() {
    assert_eq!(
        parse_iso_8601_duration(b"P1Y10M43DT22H8M3S").unwrap(),
        whole(61250883)
    );
    assert_eq!(
        parse_iso_8601_duration(b"P1Y10M43DT22H8M3S").unwrap(),
        whole(61250883)
    );
    assert_eq!(parse_iso_8601_duration(b"PT3S").unwrap(), whole(3));
    assert_eq!(
        parse_iso_8601_duration(b"PT1M3.4S").unwrap(),
        nanos(63_400_000_000)
    );

    assert!(parse_iso_8601_duration(b"").err().is_some());
    assert!(parse_iso_8601_duration(b"3S").err().is_some());
    assert!(parse_iso_8601_duration(b"T3S").err().is_some());
    assert!(parse_iso_8601_duration(b"P3S").err().is_some());
}

#[test]
fn test_parse_byte_range() {
    assert_eq!(parse_byte_range(b"1-2").unwrap(), (1, 2));
    assert_eq!(parse_byte_range(b"100-200").unwrap(), (100, 200));

    assert!(parse_byte_range(b"").err().is_some());
    assert!(parse_byte_range(b"A").err().is_some());
    assert!(parse_byte_range(b"15-A").err().is_some());
}

#[test]
fn parse_u64_accepts_plain_and_signed_decimals() {
    assert_eq!(parse_u64(b"0").unwrap(), 0);
    assert_eq!(parse_u64(b"18446744073709551615").unwrap(), u64::MAX);
    assert_eq!(parse_u64(b"+42").unwrap(), 42);
    assert!(parse_u64(b"18446744073709551616").is_err());
    assert!(parse_u64(b"").is_err());
    assert!(parse_u64(b"-1").is_err());
    assert!(parse_u64(b"1x").is_err());
}

#[test]
fn parse_i64_covers_the_whole_range() {
    assert_eq!(parse_i64(b"-9223372036854775808").unwrap(), i64::MIN);
    assert_eq!(parse_i64(b"9223372036854775807").unwrap(), i64::MAX);
    assert_eq!(parse_i64(b"-7").unwrap(), -7);
    assert!(parse_i64(b"-9223372036854775809").is_err());
    assert!(parse_i64(b"-+5").is_err());
}

#[test]
fn parse_bool_is_exact() {
    assert_eq!(parse_bool(b"true").unwrap(), true);
    assert_eq!(parse_bool(b"false").unwrap(), false);
    assert!(parse_bool(b"True").is_err());
    assert!(parse_bool(b"1").is_err());
}

#[test]
fn parse_u64_or_bool_maps_booleans_to_infinities() {
    assert_eq!(parse_u64_or_bool(b"true").unwrap(), AttrNum::PosInf);
    assert_eq!(parse_u64_or_bool(b"false").unwrap(), AttrNum::NegInf);
    assert_eq!(parse_u64_or_bool(b"3").unwrap(), AttrNum::Fin(whole(3)));
    assert!(parse_u64_or_bool(b"maybe").is_err());
}

#[test]
fn parse_f64_keeps_decimals_exact() {
    assert_eq!(parse_f64(b"1.5").unwrap(), nanos(1_500_000_000));
    assert_eq!(parse_f64(b"10").unwrap(), whole(10));
    assert_eq!(
        parse_f64(b"-0.25").unwrap(),
        Ratio { neg: true, num: 250_000_000, den: 1_000_000_000 }
    );
    assert!(parse_f64(b"").is_err());
    assert!(parse_f64(b"1.2.3").is_err());
}

#[test]
fn parse_maybe_division_evaluates_fractions_exactly() {
    assert_eq!(
        parse_maybe_division(b"30000/1001").unwrap(),
        Ratio { neg: false, num: 30000, den: 1001 }
    );
    assert_eq!(parse_maybe_division(b"24").unwrap(), whole(24));
    assert!(parse_maybe_division(b"1/0").is_err());
    assert!(parse_maybe_division(b"x/2").is_err());
}

#[test]
fn duration_round_trip_is_exact() {
    // whole seconds
    let text = format_iso_8601(5, 0);
    assert_eq!(text, b"PT5S".to_vec());
    assert_eq!(parse_iso_8601_duration(&text).unwrap(), whole(5));
    // fractional seconds
    let text = format_iso_8601(63, 400_000_000);
    assert_eq!(parse_iso_8601_duration(&text).unwrap(), nanos(63_400_000_000));
    // the largest representable whole-second duration
    let text = format_iso_8601(u64::MAX, 999_999_999);
    let parsed = parse_iso_8601_duration(&text).unwrap();
    assert_eq!(
        parsed,
        nanos(u64::MAX as u128 * 1_000_000_000 + 999_999_999)
    );
}

#[test]
fn byte_range_round_trip_is_exact() {
    let text = format_byte_range(100, 200);
    assert_eq!(text, b"100-200".to_vec());
    assert_eq!(parse_byte_range(&text).unwrap(), (100, 200));
    let text = format_byte_range(u64::MAX, 0);
    assert_eq!(parse_byte_range(&text).unwrap(), (u64::MAX, 0));
}

#[test]
fn decimal_rendering_has_no_leading_zeroes() {
    assert_eq!(u64_to_dec(0), b"0".to_vec());
    assert_eq!(u64_to_dec(907), b"907".to_vec());
    assert_eq!(parse_u64(&u64_to_dec(u64::MAX)).unwrap(), u64::MAX);
}

#[test]
fn big_endian_u32_layout() {
    assert_eq!(u32_to_u8_slice_be(0x01020304), vec![1, 2, 3, 4]);
    assert_eq!(u32_to_u8_slice_be(7), vec![0, 0, 0, 7]);
}

#[test]
fn parsing_error_carries_a_message() {
    let e: ParsingError = parse_bool(b"nope").unwrap_err();
    assert!(!e.0.is_empty());
}

#[test]
fn parse_f64_accepts_exponent_forms() {
    assert_eq!(parse_f64(b"1e2").unwrap(), whole(100));
    assert_eq!(parse_f64(b"1E2").unwrap(), whole(100));
    assert_eq!(
        parse_f64(b"1.5e1").unwrap(),
        Ratio { neg: false, num: 15_000_000_000, den: 1_000_000_000 }
    );
    assert_eq!(
        parse_f64(b"2e-3").unwrap(),
        Ratio { neg: false, num: 2, den: 1000 }
    );
    assert_eq!(
        parse_f64(b"-2.5e+2").unwrap(),
        Ratio { neg: true, num: 250_000_000_000, den: 1_000_000_000 }
    );
    assert_eq!(parse_f64(b"0e99999999999999999999").unwrap(), whole(0));
    assert!(parse_f64(b"1e999").is_err());
    assert!(parse_f64(b"1e").is_err());
    assert!(parse_f64(b"e5").is_err());
    assert!(parse_f64(b"inf").is_err());
    assert_eq!(
        parse_maybe_division(b"3e1/2").unwrap(),
        Ratio { neg: false, num: 30, den: 2 }
    );
}
