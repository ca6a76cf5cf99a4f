use serde_duration::duration_to_str;
use serde_duration::str_to_duration;
use serde_duration::InvalidDurationError;

#[test]
fn decode_seconds() {
    assert_eq!(str_to_duration("30s"), Ok(Some(30)));
}

#[test]
fn decode_minutes() {
    assert_eq!(str_to_duration("5m"), Ok(Some(300)));
}

#[test]
fn decode_hours() {
    assert_eq!(str_to_duration("3h"), Ok(Some(10800)));
}

#[test]
fn decode_unrecognized_unit() {
    assert_eq!(str_to_duration(""), Ok(None));
    assert_eq!(str_to_duration("10"), Ok(None));
    assert_eq!(str_to_duration("10x"), Ok(None));
}

#[test]
fn decode_malformed_number() {
    assert_eq!(str_to_duration("xs"), Err(InvalidDurationError));
    assert_eq!(str_to_duration("-5s"), Err(InvalidDurationError));
    assert_eq!(str_to_duration("5.5s"), Err(InvalidDurationError));
}

#[test]
fn decode_empty_prefix() {
    assert_eq!(str_to_duration("s"), Err(InvalidDurationError));
    assert_eq!(str_to_duration("m"), Err(InvalidDurationError));
    assert_eq!(str_to_duration("h"), Err(InvalidDurationError));
}

#[test]
fn decode_numeric_overflow() {
    assert_eq!(
        str_to_duration("18446744073709551615s"),
        Ok(Some(u64::MAX))
    );
    assert_eq!(
        str_to_duration("18446744073709551616s"),
        Err(InvalidDurationError)
    );
    assert_eq!(
        str_to_duration("99999999999999999999s"),
        Err(InvalidDurationError)
    );
}

#[test]
fn decode_multiplication_overflow() {
    assert_eq!(
        str_to_duration("9999999999999999999h"),
        Err(InvalidDurationError)
    );
    assert_eq!(
        str_to_duration("9999999999999999999m"),
        Err(InvalidDurationError)
    );
}

#[test]
fn encode_tier_scenarios() {
    assert_eq!(duration_to_str(1200), "20m");
    assert_eq!(duration_to_str(5), "5s");
    assert_eq!(duration_to_str(72000), "20h");
}

#[test]
fn encode_tier_boundaries() {
    assert_eq!(duration_to_str(0), "0s");
    assert_eq!(duration_to_str(59), "59s");
    assert_eq!(duration_to_str(60), "1m");
    assert_eq!(duration_to_str(3599), "59m");
    assert_eq!(duration_to_str(3600), "1h");
    assert_eq!(duration_to_str(u64::MAX), "5124095576030431h");
}

#[test]
fn encode_whole_hours() {
    assert_eq!(duration_to_str(3600), "1h");
    assert_eq!(duration_to_str(2 * 3600), "2h");
    assert_eq!(duration_to_str(1000 * 3600), "1000h");
}

#[test]
fn encode_truncates() {
    assert_eq!(duration_to_str(3661), "1h");
    assert_eq!(duration_to_str(119), "1m");
}

#[test]
fn round_trip_exact_multiples() {
    for v in [0u64, 7, 59, 60, 300, 3540, 3600, 7200, 36000] {
        assert_eq!(str_to_duration(&duration_to_str(v)), Ok(Some(v)));
    }
}

#[test]
fn round_trip_truncates_inexact() {
    assert_eq!(str_to_duration(&duration_to_str(3661)), Ok(Some(3600)));
    assert_eq!(str_to_duration(&duration_to_str(61)), Ok(Some(60)));
}

#[test]
fn error_message_text() {
    assert_eq!(InvalidDurationError.message(), "Invalid duration format");
}
