//! Named constants for the ASCII bytes that the escaping and decoding logic
//! treats specially.

use vstd::prelude::*;

verus! {

pub const AMPERSAND: u8 = 0x26;

pub const LESS_THAN: u8 = 0x3C;

pub const GREATER_THAN: u8 = 0x3E;

pub const DOUBLE_QUOTE: u8 = 0x22;

pub const SINGLE_QUOTE: u8 = 0x27;

pub const SEMICOLON: u8 = 0x3B;

pub const NUMBER_SIGN: u8 = 0x23;

pub const LOWER_X: u8 = 0x78;

pub const UPPER_X: u8 = 0x58;

pub const DIGIT_ZERO: u8 = 0x30;

pub const DIGIT_NINE: u8 = 0x39;

pub const LOWER_A: u8 = 0x61;

pub const LOWER_F: u8 = 0x66;

pub const LOWER_Z: u8 = 0x7A;

pub const UPPER_A: u8 = 0x41;

pub const UPPER_F: u8 = 0x46;

pub const UPPER_Z: u8 = 0x5A;

/// True when `b` is an ASCII decimal digit.
pub open spec fn is_dec_digit(b: u8) -> bool {
    DIGIT_ZERO <= b <= DIGIT_NINE
}

/// True when `b` is an ASCII hexadecimal digit, in either case.
pub open spec fn is_hex_digit(b: u8) -> bool {
    is_dec_digit(b) || (LOWER_A <= b <= LOWER_F) || (UPPER_A <= b <= UPPER_F)
}

/// True when `b` is an ASCII letter or digit.
pub open spec fn is_alnum(b: u8) -> bool {
    is_dec_digit(b) || (LOWER_A <= b <= LOWER_Z) || (UPPER_A <= b <= UPPER_Z)
}

/// True when every byte of `s` is an ASCII letter or digit.
pub open spec fn all_alnum(s: Seq<u8>) -> bool
    decreases s.len(),
{
    s.len() == 0 || (is_alnum(s[0]) && all_alnum(s.drop_first()))
}

/// An all-alphanumeric sequence is alphanumeric at every index.
pub proof fn lemma_all_alnum_index(s: Seq<u8>)
    requires
        all_alnum(s),
    ensures
        forall|j: int| 0 <= j < s.len() ==> is_alnum(#[trigger] s[j]),
    decreases s.len(),
{
    if s.len() > 0 {
        lemma_all_alnum_index(s.drop_first());
        assert forall|j: int| 0 <= j < s.len() implies is_alnum(#[trigger] s[j]) by {
            if j > 0 {
                assert(s.drop_first()[j - 1] == s[j]);
                assert(is_alnum(s.drop_first()[j - 1]));
            }
        }
    }
}

/// A sequence that is alphanumeric at every index is all-alphanumeric.
pub proof fn lemma_all_alnum_from_index(s: Seq<u8>)
    requires
        forall|j: int| 0 <= j < s.len() ==> is_alnum(#[trigger] s[j]),
    ensures
        all_alnum(s),
    decreases s.len(),
{
    if s.len() > 0 {
        assert(forall|j: int| 0 <= j < s.len() - 1 ==> #[trigger] s.drop_first()[j] == s[j + 1]);
        lemma_all_alnum_from_index(s.drop_first());
    }
}

/// Runtime test for an ASCII decimal digit.
pub fn dec_digit(b: u8) -> (r: bool)
    ensures
        r == is_dec_digit(b),
{
    DIGIT_ZERO <= b && b <= DIGIT_NINE
}

/// Runtime test for an ASCII hexadecimal digit.
pub fn hex_digit(b: u8) -> (r: bool)
    ensures
        r == is_hex_digit(b),
{
    (DIGIT_ZERO <= b && b <= DIGIT_NINE) || (LOWER_A <= b && b <= LOWER_F) || (UPPER_A <= b && b
        <= UPPER_F)
}

/// Runtime test for an ASCII letter or digit.
pub fn alnum(b: u8) -> (r: bool)
    ensures
        r == is_alnum(b),
{
    (DIGIT_ZERO <= b && b <= DIGIT_NINE) || (LOWER_A <= b && b <= LOWER_Z) || (UPPER_A <= b && b
        <= UPPER_Z)
}

} // verus!
