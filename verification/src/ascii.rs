//! Named ASCII codes and byte-string helpers for the ASCII strings the
//! library works on.

use vstd::prelude::*;

verus! {

pub const DIGIT_ZERO: u8 = 48;

pub const DIGIT_THREE: u8 = 51;

pub const DIGIT_FIVE: u8 = 53;

pub const DIGIT_SEVEN: u8 = 55;

pub const DIGIT_NINE: u8 = 57;

pub const UC_A: u8 = 65;

pub const UC_E: u8 = 69;

pub const UC_F: u8 = 70;

pub const UC_X: u8 = 88;

pub const UC_Z: u8 = 90;

pub const LC_A: u8 = 97;

pub const LC_B: u8 = 98;

pub const LC_C: u8 = 99;

pub const LC_D: u8 = 100;

pub const LC_E: u8 = 101;

pub const LC_F: u8 = 102;

pub const LC_G: u8 = 103;

pub const LC_H: u8 = 104;

pub const LC_I: u8 = 105;

pub const LC_L: u8 = 108;

pub const LC_M: u8 = 109;

pub const LC_N: u8 = 110;

pub const LC_O: u8 = 111;

pub const LC_P: u8 = 112;

pub const LC_R: u8 = 114;

pub const LC_S: u8 = 115;

pub const LC_T: u8 = 116;

pub const LC_U: u8 = 117;

pub const LC_X: u8 = 120;

pub const LC_Y: u8 = 121;

pub const SPACE: u8 = 32;

pub const STAR: u8 = 42;

pub const DASH: u8 = 45;

pub const DOT: u8 = 46;

pub const COLON: u8 = 58;

pub const LEFT_BRACKET: u8 = 91;

pub const RIGHT_BRACKET: u8 = 93;

/// Distance between an ASCII uppercase letter and its lowercase form.
pub const CASE_OFFSET: u8 = 32;

/// ASCII lowercasing of one byte; bytes outside `A`..`Z` are unchanged.
pub open spec fn lower_byte(c: u8) -> u8 {
    if UC_A <= c && c <= UC_Z {
        (c + CASE_OFFSET) as u8
    } else {
        c
    }
}

/// ASCII lowercasing of a whole byte string.
pub open spec fn lower_bytes(s: Seq<u8>) -> Seq<u8> {
    s.map_values(|c: u8| lower_byte(c))
}

/// Lowercases the ASCII letters of a byte string; addresses are
/// normalized through this before they serve as map keys.
pub fn ascii_lowercase(s: &[u8]) -> (r: Vec<u8>)
    ensures
        r@ == lower_bytes(s@),
{
    let mut out: Vec<u8> = Vec::new();
    let mut i: usize = 0;
    while i < s.len()
        invariant
            i <= s@.len(),
            out@.len() == i,
            forall|j: int| 0 <= j < i ==> out@[j] == lower_byte(#[trigger] s@[j]),
        decreases s@.len() - i,
    {
        let c = s[i];
        if UC_A <= c && c <= UC_Z {
            out.push(c + CASE_OFFSET);
        } else {
            out.push(c);
        }
        i = i + 1;
    }
    proof {
        assert(out@ =~= lower_bytes(s@));
    }
    out
}

/// Byte-for-byte equality of two byte strings.
pub fn bytes_eq(a: &[u8], b: &[u8]) -> (r: bool)
    ensures
        r == (a@ == b@),
{
    if a.len() != b.len() {
        proof {
            assert(a@.len() != b@.len());
        }
        return false;
    }
    let mut i: usize = 0;
    while i < a.len()
        invariant
            i <= a@.len(),
            a@.len() == b@.len(),
            forall|j: int| 0 <= j < i ==> a@[j] == b@[j],
        decreases a@.len() - i,
    {
        if a[i] != b[i] {
            return false;
        }
        i = i + 1;
    }
    proof {
        assert(a@ =~= b@);
    }
    true
}

} // verus!
