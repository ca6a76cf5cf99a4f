//! The duration codec: encoding a count of whole seconds as
//! `<digits><unit>` text and decoding such text back.

use vstd::prelude::*;
use vstd::arithmetic::div_mod::lemma_div_multiples_vanish;
use vstd::arithmetic::div_mod::lemma_fundamental_div_mod;
use vstd::arithmetic::mul::lemma_mul_inequality;
use vstd::arithmetic::mul::lemma_mul_is_commutative;
use crate::decimal::all_digits;
use crate::decimal::dec_digits;
use crate::decimal::digits_val;
use crate::decimal::format_u64;
use crate::decimal::lemma_dec_digits;
use crate::decimal::parse_u64;

verus! {

/// Failure to read the numeric component of a textual duration: the digits
/// before the unit letter are empty, not all decimal digits, or describe a
/// value that does not fit in `u64` seconds.
#[derive(Clone, Copy, Debug, PartialEq, Eq, Structural)]
pub struct InvalidDurationError;

impl InvalidDurationError {
    /// A fixed description of the failure.
    pub fn message(&self) -> (m: &'static str)
        ensures
            m@ == "Invalid duration format"@,
    {
        "Invalid duration format"
    }
}

/// Seconds per unit denoted by a suffix character; `0` when the character is
/// not a recognized unit letter.
pub open spec fn unit_multiplier(c: char) -> u64 {
    if c == 's' {
        1
    } else if c == 'm' {
        60
    } else if c == 'h' {
        3600
    } else {
        0
    }
}

/// A recognized textual duration ends in one of the unit letters.
pub open spec fn has_unit_suffix(s: Seq<char>) -> bool {
    s.len() > 0 && unit_multiplier(s.last()) != 0
}

/// What decoding a text yields:
/// `Ok(None)` when the final character is not a recognized unit (the caller
/// may treat the value as absent rather than invalid); `Err` when the unit is
/// recognized but the digit prefix is empty, holds a non-digit, or a value
/// overflows `u64`; otherwise `Ok(Some(prefix value times the multiplier))`.
pub open spec fn decode_spec(s: Seq<char>) -> Result<Option<u64>, InvalidDurationError> {
    if !has_unit_suffix(s) {
        Ok(None)
    } else {
        let digits = s.drop_last();
        let mult = unit_multiplier(s.last()) as nat;
        if digits.len() > 0 && all_digits(digits) && digits_val(digits) <= u64::MAX
            && digits_val(digits) * mult <= u64::MAX {
            Ok(Some((digits_val(digits) * mult) as u64))
        } else {
            Err(InvalidDurationError)
        }
    }
}

/// The text a count of whole seconds encodes to, by the tier rule: whole
/// hours at or above an hour, whole minutes at or above a minute, else
/// seconds. The division truncates, so `3661` encodes to `"1h"`.
pub open spec fn encode_spec(seconds: u64) -> Seq<char> {
    if seconds >= 3600 {
        dec_digits((seconds / 3600) as nat).push('h')
    } else if seconds >= 60 {
        dec_digits((seconds / 60) as nat).push('m')
    } else {
        dec_digits(seconds as nat).push('s')
    }
}

/// Decodes `<digits><unit>` text into a count of whole seconds.
pub fn str_to_duration(s: &str) -> (r: Result<Option<u64>, InvalidDurationError>)
    ensures
        r == decode_spec(s@),
{
    let n = s.unicode_len();
    if n == 0 {
        return Ok(None);
    }
    let last = s.get_char(n - 1);
    let mult: u64 = if last == 's' {
        1
    } else if last == 'm' {
        60
    } else if last == 'h' {
        3600
    } else {
        return Ok(None);
    };
    let prefix = s.substring_char(0, n - 1);
    proof {
        assert(prefix@ =~= s@.drop_last());
    }
    let value = match parse_u64(prefix) {
        Some(v) => v,
        None => {
            return Err(InvalidDurationError);
        },
    };
    match value.checked_mul(mult) {
        Some(total) => Ok(Some(total)),
        None => Err(InvalidDurationError),
    }
}

/// Encodes a count of whole seconds by the tier rule. Every duration has an
/// encoding; durations not exactly expressible in the chosen unit lose the
/// remainder by design.
pub fn duration_to_str(seconds: u64) -> (r: String)
    ensures
        r@ == encode_spec(seconds),
{
    proof {
        reveal_strlit("h");
        reveal_strlit("m");
        reveal_strlit("s");
    }
    if seconds >= 3600 {
        let mut r = format_u64(seconds / 3600);
        r.append("h");
        proof {
            assert(r@ =~= encode_spec(seconds));
        }
        r
    } else if seconds >= 60 {
        let mut r = format_u64(seconds / 60);
        r.append("m");
        proof {
            assert(r@ =~= encode_spec(seconds));
        }
        r
    } else {
        let mut r = format_u64(seconds);
        r.append("s");
        proof {
            assert(r@ =~= encode_spec(seconds));
        }
        r
    }
}

/// The seconds-per-unit of the unit the tier rule selects for a duration:
/// hours at or above an hour, minutes at or above a minute, else seconds.
pub open spec fn tier_unit(seconds: u64) -> u64 {
    if seconds >= 3600 {
        3600
    } else if seconds >= 60 {
        60
    } else {
        1
    }
}

/// Whether a duration is a whole number of the unit the tier rule selects
/// for it. Below a minute every duration is a whole number of seconds.
pub open spec fn tier_exact(seconds: u64) -> bool {
    seconds % tier_unit(seconds) == 0
}

/// Law: a positive whole number of hours encodes as that number followed by
/// `'h'`. Zero is the lone exception among whole hours: `0` encodes as `"0s"`.
pub proof fn lemma_encode_whole_hours(v: u64)
    requires
        1 <= v,
        v * 3600 <= u64::MAX,
    ensures
        encode_spec((v * 3600) as u64) == dec_digits(v as nat).push('h'),
{
    let s = (v * 3600) as u64;
    assert(s >= 3600) by {
        lemma_mul_inequality(1, v as int, 3600);
    }
    assert(s as int / 3600 == v as int) by {
        lemma_mul_is_commutative(v as int, 3600);
        lemma_div_multiples_vanish(v as int, 3600);
    }
}

/// The round trip for one tier: when the encoder chose unit letter `c` for
/// `seconds`, decoding reads back `seconds` rounded down to a whole number
/// of that unit.
proof fn lemma_round_trip_unit(seconds: u64, unit: u64, c: char)
    requires
        0 < unit,
        unit_multiplier(c) == unit,
        encode_spec(seconds) == dec_digits((seconds / unit) as nat).push(c),
    ensures
        decode_spec(encode_spec(seconds)) == Ok::<Option<u64>, InvalidDurationError>(
            Some((seconds - seconds % unit) as u64),
        ),
{
    let q = (seconds / unit) as nat;
    let e = encode_spec(seconds);
    lemma_dec_digits(q);
    assert(e.drop_last() =~= dec_digits(q));
    lemma_fundamental_div_mod(seconds as int, unit as int);
    assert(unit * q == seconds - seconds % unit);
    assert(q * unit == unit * q) by {
        lemma_mul_is_commutative(q as int, unit as int);
    }
    assert(q <= q * unit) by {
        lemma_mul_inequality(1, unit as int, q as int);
        lemma_mul_is_commutative(unit as int, q as int);
    }
}

/// Law: decoding an encoded duration gives the duration rounded down to a
/// whole number of the unit the tier rule selected, so the round trip
/// returns the duration itself exactly when the duration is tier-exact.
/// It is not a general round trip: `3661` encodes as `"1h"`, which decodes
/// to `3600`.
pub proof fn lemma_decode_encode_round_trip(seconds: u64)
    ensures
        decode_spec(encode_spec(seconds)) == Ok::<Option<u64>, InvalidDurationError>(
            Some((seconds - seconds % tier_unit(seconds)) as u64),
        ),
        decode_spec(encode_spec(seconds)) == Ok::<Option<u64>, InvalidDurationError>(
            Some(seconds),
        ) <==> tier_exact(seconds),
{
    if seconds >= 3600 {
        lemma_round_trip_unit(seconds, 3600, 'h');
    } else if seconds >= 60 {
        lemma_round_trip_unit(seconds, 60, 'm');
    } else {
        lemma_round_trip_unit(seconds, 1, 's');
    }
}

} // verus!
