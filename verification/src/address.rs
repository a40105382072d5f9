//! Address syntax: hexadecimal format validation, decoding to bytes, and
//! the externally-owned-account decision.
//!
//! An address is canonically a lowercase `0x`-prefixed string of 40
//! hexadecimal characters. Validation ignores the optional prefix and the
//! case of the digits; case normalization (see [`crate::ascii`]) makes the
//! one canonical spelling under which equal addresses compare equal.

use vstd::prelude::*;

use crate::ascii::lower_byte;
use crate::ascii::lower_bytes;
use crate::ascii::DIGIT_NINE;
use crate::ascii::DIGIT_ZERO;
use crate::ascii::LC_A;
use crate::ascii::LC_F;
use crate::ascii::LC_X;
use crate::ascii::UC_A;
use crate::ascii::UC_F;
use crate::ascii::UC_X;
use crate::errors::Error;

verus! {

/// True when `c` is an ASCII hexadecimal digit, in either case.
pub open spec fn is_hex_digit(c: u8) -> bool {
    (DIGIT_ZERO <= c && c <= DIGIT_NINE) || (LC_A <= c && c <= LC_F) || (UC_A <= c && c <= UC_F)
}

/// A well-formed address: ignoring an optional `0x` (or `0X`) prefix and
/// the case of the digits, exactly 40 hexadecimal characters.
pub open spec fn valid_address_format(s: Seq<u8>) -> bool {
    ||| (s.len() == 40 && forall|i: int| 0 <= i < 40 ==> is_hex_digit(#[trigger] s[i]))
    ||| (s.len() == 42 && s[0] == DIGIT_ZERO && (s[1] == LC_X || s[1] == UC_X) && forall|i: int|
        2 <= i < 42 ==> is_hex_digit(#[trigger] s[i]))
}

/// Numeric value of one hexadecimal digit.
pub open spec fn hex_digit_value(c: u8) -> u8 {
    if DIGIT_ZERO <= c && c <= DIGIT_NINE {
        (c - DIGIT_ZERO) as u8
    } else if LC_A <= c && c <= LC_F {
        (c - LC_A + 10) as u8
    } else if UC_A <= c && c <= UC_F {
        (c - UC_A + 10) as u8
    } else {
        0
    }
}

/// The 40 hexadecimal characters of a well-formed address, prefix dropped.
pub open spec fn address_digits(s: Seq<u8>) -> Seq<u8> {
    if s.len() == 42 {
        s.skip(2)
    } else {
        s
    }
}

/// The bytes encoded by a hexadecimal string, two characters a byte.
pub open spec fn bytes_of_hex(s: Seq<u8>) -> Seq<u8> {
    Seq::new(
        (s.len() / 2) as nat,
        |i: int| (hex_digit_value(s[2 * i]) * 16 + hex_digit_value(s[2 * i + 1])) as u8,
    )
}

fn hex_digit(c: u8) -> (r: bool)
    ensures
        r == is_hex_digit(c),
{
    (DIGIT_ZERO <= c && c <= DIGIT_NINE) || (LC_A <= c && c <= LC_F) || (UC_A <= c && c <= UC_F)
}

fn hex_value(c: u8) -> (r: u8)
    requires
        is_hex_digit(c),
    ensures
        r == hex_digit_value(c),
        r < 16,
{
    if DIGIT_ZERO <= c && c <= DIGIT_NINE {
        c - DIGIT_ZERO
    } else if LC_A <= c && c <= LC_F {
        c - LC_A + 10
    } else {
        c - UC_A + 10
    }
}

fn all_hex_from(s: &[u8], start: usize) -> (r: bool)
    requires
        start <= s@.len(),
    ensures
        r == forall|i: int| start <= i < s@.len() ==> is_hex_digit(#[trigger] s@[i]),
{
    let mut i: usize = start;
    while i < s.len()
        invariant
            start <= i <= s@.len(),
            forall|j: int| start <= j < i ==> is_hex_digit(#[trigger] s@[j]),
        decreases s@.len() - i,
    {
        if !hex_digit(s[i]) {
            return false;
        }
        i = i + 1;
    }
    true
}

/// True iff, ignoring an optional `0x` prefix and case, `address` is
/// exactly 40 hexadecimal characters.
pub fn validate_address_format(address: &[u8]) -> (r: bool)
    ensures
        r == valid_address_format(address@),
{
    if address.len() == 40 {
        all_hex_from(address, 0)
    } else if address.len() == 42 {
        if address[0] == DIGIT_ZERO && (address[1] == LC_X || address[1] == UC_X) {
            all_hex_from(address, 2)
        } else {
            false
        }
    } else {
        false
    }
}

/// Decodes a well-formed address into its 20 bytes; rejects any other
/// string with `InvalidAddressFormat`, exactly when the format check
/// fails.
pub fn get_address_from_str(address: &[u8]) -> (r: Result<Vec<u8>, Error>)
    ensures
        r is Ok <==> valid_address_format(address@),
        r matches Ok(b) ==> b@ == bytes_of_hex(address_digits(address@)) && b@.len() == 20,
        r matches Err(e) ==> e == Error::InvalidAddressFormat,
{
    if !validate_address_format(address) {
        return Err(Error::InvalidAddressFormat);
    }
    let start: usize = if address.len() == 42 {
        2
    } else {
        0
    };
    let ghost digits = address_digits(address@);
    proof {
        assert(digits.len() == 40);
        assert(forall|i: int| 0 <= i < 40 ==> digits[i] == address@[start + i]);
        assert(forall|i: int| 0 <= i < 40 ==> is_hex_digit(#[trigger] digits[i]));
    }
    let mut out: Vec<u8> = Vec::new();
    let mut k: usize = 0;
    while k < 20
        invariant
            k <= 20,
            address@.len() == start + 40,
            digits == address_digits(address@),
            digits.len() == 40,
            forall|i: int| 0 <= i < 40 ==> digits[i] == address@[start + i],
            forall|i: int| 0 <= i < 40 ==> is_hex_digit(#[trigger] digits[i]),
            out@.len() == k,
            forall|j: int|
                0 <= j < k ==> out@[j] == (hex_digit_value(digits[2 * j]) * 16 + hex_digit_value(
                    digits[2 * j + 1],
                )) as u8,
        decreases 20 - k,
    {
        proof {
            assert(is_hex_digit(digits[2 * (k as int)]));
            assert(is_hex_digit(digits[2 * (k as int) + 1]));
            assert(digits[2 * (k as int)] == address@[start + 2 * (k as int)]);
            assert(digits[2 * (k as int) + 1] == address@[start + 2 * (k as int) + 1]);
        }
        let hi = hex_value(address[start + 2 * k]);
        let lo = hex_value(address[start + 2 * k + 1]);
        out.push(hi * 16 + lo);
        k = k + 1;
    }
    proof {
        assert(out@ =~= bytes_of_hex(digits));
    }
    Ok(out)
}

/// The externally-owned-account decision on fetched bytecode: an address
/// is a plain wallet iff nothing is deployed at it.
pub fn is_eoa_code(code: &[u8]) -> (r: bool)
    ensures
        r == (code@.len() == 0),
{
    code.len() == 0
}

/// Validity of an address depends only on its lowercase spelling: byte
/// strings that agree up to ASCII case validate identically.
pub proof fn lemma_validate_case_insensitive(s: Seq<u8>, t: Seq<u8>)
    requires
        lower_bytes(s) == lower_bytes(t),
    ensures
        valid_address_format(s) == valid_address_format(t),
{
    assert(lower_bytes(s).len() == s.len());
    assert(lower_bytes(t).len() == t.len());
    assert(s.len() == t.len());
    assert forall|i: int| 0 <= i < s.len() implies lower_byte(s[i]) == lower_byte(t[i]) by {
        assert(lower_bytes(s)[i] == lower_byte(s[i]));
        assert(lower_bytes(t)[i] == lower_byte(t[i]));
    }
    assert forall|i: int| 0 <= i < s.len() implies is_hex_digit(s[i]) == is_hex_digit(t[i]) by {
        assert(lower_byte(s[i]) == lower_byte(t[i]));
    }
    if s.len() == 42 {
        assert(lower_byte(s[0]) == lower_byte(t[0]));
        assert(lower_byte(s[1]) == lower_byte(t[1]));
    }
}

/// Validity of a bare 40-character address is unchanged by adding the
/// `0x` prefix.
pub proof fn lemma_validate_prefix_insensitive(s: Seq<u8>)
    requires
        s.len() == 40,
    ensures
        valid_address_format(seq![DIGIT_ZERO, LC_X] + s) == valid_address_format(s),
{
    let p = seq![DIGIT_ZERO, LC_X] + s;
    assert(p.len() == 42);
    assert(p[0] == DIGIT_ZERO);
    assert(p[1] == LC_X);
    if valid_address_format(s) {
        assert forall|i: int| 2 <= i < 42 implies is_hex_digit(#[trigger] p[i]) by {
            assert(p[i] == s[i - 2]);
            assert(is_hex_digit(s[i - 2]));
        }
    }
    if valid_address_format(p) {
        assert forall|i: int| 0 <= i < 40 implies is_hex_digit(#[trigger] s[i]) by {
            assert(p[i + 2] == s[i]);
            assert(is_hex_digit(p[i + 2]));
        }
    }
}

} // verus!
