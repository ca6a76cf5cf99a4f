//! Conversion between whole-second durations and a compact textual form
//! ("10s", "5m", "3h"), meant to be plugged into a serialization
//! framework's field-level hooks.
//!
//! A duration is a non-negative count of whole seconds. Its textual form is
//! `<digits><unit>` with `unit` one of `s` (seconds), `m` (minutes) or `h`
//! (hours). Encoding picks the largest unit the duration reaches and divides
//! truncating, so `3661` encodes as `"1h"`; decoding multiplies the numeric
//! prefix by the unit and fails on malformed digits or overflow.

mod decimal;
mod codec;

pub use codec::InvalidDurationError;
pub use codec::str_to_duration;
pub use codec::duration_to_str;
pub use codec::decode_spec;
pub use codec::encode_spec;
pub use codec::unit_multiplier;
pub use codec::has_unit_suffix;
pub use codec::tier_unit;
pub use codec::tier_exact;
pub use codec::lemma_encode_whole_hours;
pub use codec::lemma_decode_encode_round_trip;
pub use decimal::dec_digits;
pub use decimal::digits_val;
pub use decimal::all_digits;
pub use decimal::digit_char;
pub use decimal::digit_val;
pub use decimal::is_digit;
