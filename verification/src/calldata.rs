//! ABI call-data decoding, independent of method semantics.
//!
//! Call data is a hexadecimal byte string: a `0x` prefix, a four-byte
//! method selector (eight characters), then ABI-encoded arguments in
//! 32-byte words of 64 characters each. The decoder splits the words;
//! callers interpret their positions. For the `approve(address,uint256)`
//! signature the spender address sits in word 0, left-zero-padded, so its
//! canonical form is the word's low-order 40 characters re-prefixed with
//! `0x`.

use vstd::prelude::*;

use crate::address::address_digits;
use crate::address::valid_address_format;
use crate::ascii::DIGIT_FIVE;
use crate::ascii::DIGIT_NINE;
use crate::ascii::DIGIT_SEVEN;
use crate::ascii::DIGIT_THREE;
use crate::ascii::DIGIT_ZERO;
use crate::ascii::LC_A;
use crate::ascii::LC_B;
use crate::ascii::LC_E;
use crate::ascii::LC_X;
use crate::errors::Error;

verus! {

/// The ten leading characters of an `approve(address,uint256)` call:
/// the `0x` prefix and the selector `095ea7b3`.
pub open spec fn approve_selector() -> Seq<u8> {
    seq![
        DIGIT_ZERO,
        LC_X,
        DIGIT_ZERO,
        DIGIT_NINE,
        DIGIT_FIVE,
        LC_E,
        LC_A,
        DIGIT_SEVEN,
        LC_B,
        DIGIT_THREE,
    ]
}

/// True when the call data starts with the `approve` selector.
pub open spec fn has_approve_selector(input: Seq<u8>) -> bool {
    input.len() >= 10 && input.take(10) == approve_selector()
}

/// Well-formed call data: after the prefix and selector, at least one
/// whole 64-character word and nothing but whole words.
pub open spec fn call_data_well_formed(input: Seq<u8>) -> bool {
    input.len() >= 74 && (input.len() - 10) % 64 == 0
}

/// The number of argument words in the call data.
pub open spec fn argument_count(input: Seq<u8>) -> int {
    (input.len() - 10) / 64
}

/// Argument word `k` of the call data, 64 hexadecimal characters.
pub open spec fn argument_word(input: Seq<u8>, k: int) -> Seq<u8> {
    input.subrange(10 + 64 * k, 10 + 64 * (k + 1))
}

/// The spender named by an `approve` argument word: ABI encoding pads an
/// address on the left to 32 bytes, so the address is the word's last 40
/// characters, re-prefixed with `0x`.
pub open spec fn spender_of_word(w: Seq<u8>) -> Seq<u8> {
    seq![DIGIT_ZERO, LC_X] + w.skip(24)
}

/// An address as the left-zero-padded argument word that ABI encoding
/// gives it: 24 `0` characters, then the 40 address digits.
pub open spec fn word_of_address(a: Seq<u8>) -> Seq<u8> {
    Seq::new(24, |i: int| DIGIT_ZERO) + address_digits(a)
}

fn copy_range(s: &[u8], from: usize, to: usize) -> (r: Vec<u8>)
    requires
        from <= to <= s@.len(),
    ensures
        r@ == s@.subrange(from as int, to as int),
{
    let mut out: Vec<u8> = Vec::new();
    let mut i: usize = from;
    while i < to
        invariant
            from <= i <= to <= s@.len(),
            out@.len() == i - from,
            forall|j: int| from <= j < i ==> out@[j - from] == s@[j],
        decreases to - i,
    {
        out.push(s[i]);
        i = i + 1;
    }
    proof {
        assert(out@ =~= s@.subrange(from as int, to as int));
    }
    out
}

/// True iff the call data begins with the `approve` selector.
pub fn input_has_approve_selector(input: &[u8]) -> (r: bool)
    ensures
        r == has_approve_selector(input@),
{
    if input.len() < 10 {
        return false;
    }
    let r = input[0] == DIGIT_ZERO && input[1] == LC_X && input[2] == DIGIT_ZERO && input[3]
        == DIGIT_NINE && input[4] == DIGIT_FIVE && input[5] == LC_E && input[6] == LC_A && input[7]
        == DIGIT_SEVEN && input[8] == LC_B && input[9] == DIGIT_THREE;
    proof {
        assert forall|i: int| 0 <= i < 10 implies input@.take(10)[i] == input@[i] by {}
        if r {
            assert(input@.take(10) =~= approve_selector());
        } else {
            if input@.take(10) == approve_selector() {
                assert(input@[0] == approve_selector()[0]);
                assert(input@[1] == approve_selector()[1]);
                assert(input@[2] == approve_selector()[2]);
                assert(input@[3] == approve_selector()[3]);
                assert(input@[4] == approve_selector()[4]);
                assert(input@[5] == approve_selector()[5]);
                assert(input@[6] == approve_selector()[6]);
                assert(input@[7] == approve_selector()[7]);
                assert(input@[8] == approve_selector()[8]);
                assert(input@[9] == approve_selector()[9]);
            }
        }
    }
    r
}

/// Splits the call data after its ten-character prefix into 64-character
/// argument words, in order. Fails with `MalformedCallData` when the
/// remainder is shorter than one word or not a multiple of whole words.
pub fn parse_256_method_arguments(long_hex_str: &[u8]) -> (r: Result<Vec<Vec<u8>>, Error>)
    ensures
        r is Ok <==> call_data_well_formed(long_hex_str@),
        r matches Ok(words) ==> {
            &&& words@.len() == argument_count(long_hex_str@)
            &&& forall|k: int|
                0 <= k < words@.len() ==> (#[trigger] words@[k])@ == argument_word(
                    long_hex_str@,
                    k,
                )
        },
        r matches Err(e) ==> e == Error::MalformedCallData,
{
    let n = long_hex_str.len();
    if n < 74 || (n - 10) % 64 != 0 {
        return Err(Error::MalformedCallData);
    }
    let count = (n - 10) / 64;
    proof {
        assert(n - 10 == 64 * ((n - 10) as int / 64) + (n - 10) as int % 64);
    }
    let mut words: Vec<Vec<u8>> = Vec::new();
    let mut k: usize = 0;
    while k < count
        invariant
            k <= count,
            n == long_hex_str@.len(),
            n - 10 == 64 * count,
            words@.len() == k,
            forall|j: int|
                0 <= j < k ==> (#[trigger] words@[j])@ == argument_word(long_hex_str@, j),
        decreases count - k,
    {
        let offset = 10 + k * 64;
        proof {
            assert(64 * (k + 1) <= 64 * count);
        }
        let word = copy_range(long_hex_str, offset, offset + 64);
        proof {
            assert(word@ =~= argument_word(long_hex_str@, k as int));
        }
        words.push(word);
        k = k + 1;
    }
    Ok(words)
}

/// Extracts the canonical spender address from an `approve` argument word.
pub fn spender_from_word(word: &[u8]) -> (r: Vec<u8>)
    requires
        word@.len() == 64,
    ensures
        r@ == spender_of_word(word@),
{
    let mut out: Vec<u8> = Vec::new();
    out.push(DIGIT_ZERO);
    out.push(LC_X);
    let mut i: usize = 24;
    while i < 64
        invariant
            24 <= i <= 64,
            word@.len() == 64,
            out@.len() == i - 22,
            out@[0] == DIGIT_ZERO,
            out@[1] == LC_X,
            forall|j: int| 24 <= j < i ==> out@[j - 22] == word@[j],
        decreases 64 - i,
    {
        out.push(word[i]);
        i = i + 1;
    }
    proof {
        assert(out@ =~= spender_of_word(word@));
    }
    out
}

/// Encodes an address into the left-zero-padded argument word that ABI
/// encoding would give it.
pub fn encode_address_as_word(address: &[u8]) -> (r: Vec<u8>)
    requires
        valid_address_format(address@),
    ensures
        r@ == word_of_address(address@),
{
    let mut out: Vec<u8> = Vec::new();
    let mut i: usize = 0;
    while i < 24
        invariant
            i <= 24,
            out@.len() == i,
            forall|j: int| 0 <= j < i ==> out@[j] == DIGIT_ZERO,
        decreases 24 - i,
    {
        out.push(DIGIT_ZERO);
        i = i + 1;
    }
    let start: usize = if address.len() == 42 {
        2
    } else {
        0
    };
    let mut j: usize = start;
    while j < address.len()
        invariant
            start <= j <= address@.len(),
            out@.len() == 24 + j - start,
            forall|m: int| 0 <= m < 24 ==> out@[m] == DIGIT_ZERO,
            forall|m: int| start <= m < j ==> out@[24 + m - start] == address@[m],
        decreases address@.len() - j,
    {
        out.push(address[j]);
        j = j + 1;
    }
    proof {
        assert(out@ =~= word_of_address(address@));
    }
    out
}

/// Encoding an address into its argument word and extracting the spender
/// back yields exactly the canonical `0x`-prefixed address it came from.
pub proof fn lemma_spender_round_trip(a: Seq<u8>)
    requires
        a.len() == 42,
        a[0] == DIGIT_ZERO,
        a[1] == LC_X,
    ensures
        spender_of_word(word_of_address(a)) == a,
{
    assert(word_of_address(a).skip(24) =~= a.skip(2));
    assert(spender_of_word(word_of_address(a)) =~= a);
}

} // verus!
