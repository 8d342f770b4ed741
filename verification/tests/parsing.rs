use minisort::numeric::{key_of, parse_i64};

#[test]
fn parses_plain_integers() {
    assert_eq!(parse_i64(&"0".to_string()), Some(0));
    assert_eq!(parse_i64(&"123".to_string()), Some(123));
    assert_eq!(parse_i64(&"007".to_string()), Some(7));
}

#[test]
fn parses_signed_integers() {
    assert_eq!(parse_i64(&"+42".to_string()), Some(42));
    assert_eq!(parse_i64(&"-42".to_string()), Some(-42));
    assert_eq!(parse_i64(&"-0".to_string()), Some(0));
}

#[test]
fn parses_the_64_bit_extremes() {
    assert_eq!(
        parse_i64(&"9223372036854775807".to_string()),
        Some(i64::MAX)
    );
    assert_eq!(
        parse_i64(&"-9223372036854775808".to_string()),
        Some(i64::MIN)
    );
}

#[test]
fn rejects_values_out_of_range() {
    assert_eq!(parse_i64(&"9223372036854775808".to_string()), None);
    assert_eq!(parse_i64(&"-9223372036854775809".to_string()), None);
    assert_eq!(parse_i64(&"99999999999999999999".to_string()), None);
}

#[test]
fn rejects_malformed_lines() {
    assert_eq!(parse_i64(&"".to_string()), None);
    assert_eq!(parse_i64(&"+".to_string()), None);
    assert_eq!(parse_i64(&"-".to_string()), None);
    assert_eq!(parse_i64(&"12a".to_string()), None);
    assert_eq!(parse_i64(&"1.5".to_string()), None);
    assert_eq!(parse_i64(&" 7".to_string()), None);
    assert_eq!(parse_i64(&"abc".to_string()), None);
}

#[test]
fn unparseable_lines_take_the_sentinel_key() {
    assert_eq!(key_of(&"abc".to_string()), i64::MAX);
    assert_eq!(key_of(&"99999999999999999999".to_string()), i64::MAX);
    assert_eq!(key_of(&"-13".to_string()), -13);
}
