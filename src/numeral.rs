//! Numerals of the assembly language: decimal, optionally signed, or
//! hexadecimal behind an `x`.

use vstd::prelude::*;

verus! {

/// The value of `c` read as a digit of any base up to 36; 36 where `c` is no
/// digit at all.
pub open spec fn digit_value(c: char) -> int {
    if '0' <= c <= '9' {
        c as int - '0' as int
    } else if 'a' <= c <= 'z' {
        c as int - 'a' as int + 10
    } else if 'A' <= c <= 'Z' {
        c as int - 'A' as int + 10
    } else {
        36
    }
}

/// Every character of `d` is a digit in `radix`.
pub open spec fn all_digits(d: Seq<char>, radix: int) -> bool {
    forall|k: int| 0 <= k < d.len() ==> #[trigger] digit_value(d[k]) < radix
}

/// The number that the digits `d` spell in `radix`, most significant first.
pub open spec fn digits_value(d: Seq<char>, radix: int) -> int
    decreases d.len(),
{
    if d.len() == 0 {
        0
    } else {
        digits_value(d.drop_last(), radix) * radix + digit_value(d.last())
    }
}

/// The integer that `s` spells in `radix`: an optional sign (`-` only where
/// `signed`), then one or more digits.
pub open spec fn numeral_value(s: Seq<char>, radix: int, signed: bool) -> Option<int> {
    if s.len() > 0 && (s[0] == '+' || (signed && s[0] == '-')) {
        let d = s.drop_first();
        if d.len() > 0 && all_digits(d, radix) {
            Some(
                if s[0] == '-' {
                    -digits_value(d, radix)
                } else {
                    digits_value(d, radix)
                },
            )
        } else {
            None
        }
    } else if s.len() > 0 && all_digits(s, radix) {
        Some(digits_value(s, radix))
    } else {
        None
    }
}

/// The 16-bit two's-complement word with the same low 16 bits as `x`.
pub open spec fn word_of(x: int) -> int {
    let u = x % 0x10000;
    if u < 0x8000 {
        u
    } else {
        u - 0x10000
    }
}

/// The word that a numeric literal spells: hexadecimal behind `x`, or
/// decimal with an optional sign; either as a signed or as an unsigned
/// 16-bit value, read as the word with that bit pattern.
pub open spec fn literal_value(w: Seq<char>) -> Option<int> {
    if w.len() > 0 && w[0] == 'x' {
        match numeral_value(w.drop_first(), 16, false) {
            Some(v) => if v < 0x10000 {
                Some(word_of(v))
            } else {
                None
            },
            None => None,
        }
    } else {
        match numeral_value(w, 10, true) {
            Some(v) => if -0x8000 <= v < 0x10000 {
                Some(word_of(v))
            } else {
                None
            },
            None => None,
        }
    }
}

/// The register that the word `w` names (`r0` to `r7`), if any.
pub open spec fn register_number(w: Seq<char>) -> Option<int> {
    if w.len() > 0 && w[0] == 'r' {
        match numeral_value(w.drop_first(), 10, true) {
            Some(v) => if 0 <= v <= 7 {
                Some(v)
            } else {
                None
            },
            None => None,
        }
    } else {
        None
    }
}

/// Relies on `i16::from_str_radix` in base 10: an optional `+` or `-`, then
/// decimal digits only, with a value in the range of `i16`.
#[verifier::external_body]
fn parse_i16_decimal(w: &[char]) -> (r: Option<i16>)
    ensures
        match numeral_value(w@, 10, true) {
            Some(v) => if -0x8000 <= v < 0x8000 {
                r == Some(v as i16)
            } else {
                r is None
            },
            None => r is None,
        },
{
    let s: String = w.iter().collect();
    i16::from_str_radix(&s, 10).ok()
}

/// Relies on `u16::from_str_radix`: an optional `+`, then digits of `radix`
/// only (letters of either case above 9), with a value below 2^16.
#[verifier::external_body]
pub(crate) fn parse_u16_radix(w: &[char], radix: u32) -> (r: Option<u16>)
    requires
        2 <= radix <= 36,
    ensures
        match numeral_value(w@, radix as int, false) {
            Some(v) => if v < 0x10000 {
                r == Some(v as u16)
            } else {
                r is None
            },
            None => r is None,
        },
{
    let s: String = w.iter().collect();
    u16::from_str_radix(&s, radix).ok()
}

pub proof fn lemma_digits_value_nonneg(d: Seq<char>, radix: int)
    requires
        radix >= 1,
    ensures
        digits_value(d, radix) >= 0,
    decreases d.len(),
{
    if d.len() > 0 {
        lemma_digits_value_nonneg(d.drop_last(), radix);
        let a = digits_value(d.drop_last(), radix);
        assert(a * radix >= 0) by (nonlinear_arith)
            requires
                a >= 0,
                radix >= 1,
        ;
    }
}

proof fn lemma_word_of_small(v: int)
    requires
        -0x8000 <= v < 0x8000,
    ensures
        word_of(v) == v,
{
}

/// A positive signed numeral reads the same without the sign allowed.
proof fn lemma_positive_numeral_unsigned(w: Seq<char>, radix: int)
    requires
        radix >= 1,
        numeral_value(w, radix, true) matches Some(v) && v > 0,
    ensures
        numeral_value(w, radix, false) == numeral_value(w, radix, true),
{
    if w.len() > 0 {
        lemma_digits_value_nonneg(w.drop_first(), radix);
    }
}

/// An unsigned numeral reads the same where a sign is allowed.
proof fn lemma_unsigned_numeral_signed(w: Seq<char>, radix: int)
    requires
        radix <= 36,
        numeral_value(w, radix, false) is Some,
    ensures
        numeral_value(w, radix, true) == numeral_value(w, radix, false),
{
    if w.len() > 0 && w[0] == '-' {
        assert(digit_value(w[0]) < radix);
    }
}

pub proof fn lemma_u16_as_i16(v: u16)
    ensures
        (v as i16) as int == word_of(v as int),
{
    assert((v as i16) as int == if v < 0x8000 {
        v as int
    } else {
        v as int - 0x10000
    }) by (bit_vector);
}

/// Reads a numeric literal: hexadecimal behind `x`, else signed decimal.
pub fn parse_signed_hex_or_decimal_literal(w: &[char]) -> (r: Option<i16>)
    ensures
        match literal_value(w@) {
            Some(v) => r is Some && r->0 as int == v,
            None => r is None,
        },
{
    if w.len() > 0 && w[0] == 'x' {
        let digits = &w[1..w.len()];
        assert(digits@ =~= w@.drop_first());
        proof {
            lemma_digits_value_nonneg(digits@, 16);
            if digits@.len() > 0 {
                lemma_digits_value_nonneg(digits@.drop_first(), 16);
            }
        }
        match parse_u16_radix(digits, 16) {
            Some(v) => {
                proof {
                    lemma_u16_as_i16(v);
                }
                Some(#[verifier::truncate] (v as i16))
            },
            None => None,
        }
    } else {
        match parse_i16_decimal(w) {
            Some(v) => {
                proof {
                    lemma_word_of_small(v as int);
                }
                Some(v)
            },
            None => {
                proof {
                    if numeral_value(w@, 10, true) matches Some(v) && v > 0 {
                        lemma_positive_numeral_unsigned(w@, 10);
                    }
                    lemma_digits_value_nonneg(w@, 10);
                    if w@.len() > 0 {
                        lemma_digits_value_nonneg(w@.drop_first(), 10);
                    }
                }
                match parse_u16_radix(w, 10) {
                    Some(v) => {
                        proof {
                            lemma_u16_as_i16(v);
                            lemma_unsigned_numeral_signed(w@, 10);
                        }
                        Some(#[verifier::truncate] (v as i16))
                    },
                    None => None,
                }
            },
        }
    }
}

/// Reads a register name, `r0` to `r7`.
pub fn parse_register_without_comma(w: &[char]) -> (r: Option<u16>)
    ensures
        match register_number(w@) {
            Some(v) => r == Some(v as u16),
            None => r is None,
        },
{
    if w.len() == 0 || w[0] != 'r' {
        return None;
    }
    let digits = &w[1..w.len()];
    assert(digits@ =~= w@.drop_first());
    match parse_i16_decimal(digits) {
        Some(v) => if 0 <= v && v <= 7 {
            Some(v as u16)
        } else {
            None
        },
        None => None,
    }
}

} // verus!
