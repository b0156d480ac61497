//! Bit-field helpers shared by the assembler and the execution engine.

use vstd::arithmetic::div_mod::{
    lemma_mod_add_multiples_vanish, lemma_mod_mod, lemma_mod_sub_multiples_vanish, lemma_small_mod,
};
use vstd::arithmetic::power2::{
    lemma2_to64, lemma_pow2_adds, lemma_pow2_pos, lemma_pow2_strictly_increases, lemma_pow2_unfold,
    pow2,
};
use vstd::prelude::*;

verus! {

/// The unsigned 16-bit pattern of a (signed or unsigned) word value.
pub open spec fn unsigned_of(x: int) -> int {
    x % 0x10000
}

/// Bits `hi` down to `lo` (inclusive) of the 16-bit pattern of `x`.
pub open spec fn bits_of(x: int, hi: int, lo: int) -> int {
    (unsigned_of(x) / pow2(lo as nat) as int) % (pow2((hi - lo + 1) as nat) as int)
}

/// Two's-complement reading of a `width`-bit field holding `v`.
pub open spec fn sign_extended(v: int, width: int) -> int {
    if v < pow2((width - 1) as nat) {
        v
    } else {
        v - pow2(width as nat)
    }
}

/// `2^n` for small `n`.
pub fn pow2_u32(n: u32) -> (r: u32)
    requires
        n <= 16,
    ensures
        r as nat == pow2(n as nat),
{
    let mut r: u32 = 1;
    let mut i: u32 = 0;
    proof {
        lemma2_to64();
    }
    while i < n
        invariant
            i <= n <= 16,
            r as nat == pow2(i as nat),
        decreases n - i,
    {
        proof {
            lemma_pow2_unfold((i + 1) as nat);
            lemma2_to64();
            if i + 1 < 16 {
                lemma_pow2_strictly_increases((i + 1) as nat, 16);
            }
        }
        r = r * 2;
        i = i + 1;
    }
    r
}

/// Obtains the bits of `val` from `start` down to `end`, inclusive; bit 0 is
/// the least significant bit.
pub fn bits(val: i16, start: u16, end: u16) -> (r: u16)
    requires
        end <= start <= 15,
    ensures
        r as int == bits_of(val as int, start as int, end as int),
        (r as nat) < pow2((start - end + 1) as nat),
{
    let u: u32 = unsext(val) as u32;
    let d = pow2_u32(end as u32);
    let m = pow2_u32((start - end + 1) as u32);
    proof {
        lemma_pow2_pos(end as nat);
        lemma_pow2_pos((start - end + 1) as nat);
        lemma2_to64();
        if start - end + 1 < 16 {
            lemma_pow2_strictly_increases((start - end + 1) as nat, 16);
        }
    }
    ((u / d) % m) as u16
}

/// The two's-complement value of the `len`-bit field `val`, as a 16-bit word.
pub fn sext(val: u16, len: u16) -> (r: i16)
    requires
        1 <= len <= 16,
        (val as nat) < pow2(len as nat),
    ensures
        r as int == sign_extended(val as int, len as int),
{
    let half = pow2_u32((len - 1) as u32);
    let full = pow2_u32(len as u32);
    proof {
        lemma_pow2_unfold(len as nat);
        lemma2_to64();
        if len < 16 {
            lemma_pow2_strictly_increases(len as nat, 16);
        }
    }
    if (val as u32) < half {
        val as i16
    } else {
        (val as i32 - full as i32) as i16
    }
}

/// The unsigned 16-bit pattern of a signed word.
pub fn unsext(val: i16) -> (r: u16)
    ensures
        r as int == unsigned_of(val as int),
        val >= 0 ==> r as int == val as int,
        val < 0 ==> r as int == val as int + 0x10000,
{
    if val >= 0 {
        val as u16
    } else {
        (0x10000i32 + val as i32) as u16
    }
}

/// The low `num_bits` bits of `val` in two's complement, as an unsigned
/// field value.
pub fn last_n_bits(val: i16, num_bits: u16) -> (r: u16)
    requires
        num_bits <= 16,
    ensures
        r as int == (val as int) % (pow2(num_bits as nat) as int),
{
    let u = unsext(val) as u32;
    let m = pow2_u32(num_bits as u32);
    proof {
        let a = pow2(num_bits as nat) as int;
        let b = pow2((16 - num_bits) as nat) as int;
        lemma2_to64();
        lemma_pow2_pos(num_bits as nat);
        lemma_pow2_pos((16 - num_bits) as nat);
        lemma_pow2_adds(num_bits as nat, (16 - num_bits) as nat);
        lemma_mod_mod(val as int, a, b);
    }
    (u % m) as u16
}

/// Reading back the low `w` bits of a sign-extended `w`-bit field gives the
/// field itself.
pub proof fn lemma_bits_of_sign_extended(v: int, w: int)
    requires
        1 <= w <= 16,
        0 <= v < pow2(w as nat),
    ensures
        bits_of(sign_extended(v, w), w - 1, 0) == v,
{
    let a = pow2(w as nat) as int;
    let b = pow2((16 - w) as nat) as int;
    lemma2_to64();
    lemma_pow2_pos(w as nat);
    lemma_pow2_pos((16 - w) as nat);
    lemma_pow2_adds(w as nat, (16 - w) as nat);
    let x = sign_extended(v, w);
    lemma_mod_mod(x, a, b);
    lemma_small_mod(v as nat, a as nat);
    if v >= pow2((w - 1) as nat) {
        lemma_mod_sub_multiples_vanish(v, a);
    }
    assert(unsigned_of(x) / 1 == unsigned_of(x));
}

/// Sign-extending the full 16-bit pattern of a signed word gives the word
/// back.
pub proof fn lemma_sign_extended_unsigned_of(x: int)
    requires
        -0x8000 <= x < 0x8000,
    ensures
        sign_extended(unsigned_of(x) % 0x10000, 16) == x,
{
    lemma2_to64();
    if x >= 0 {
        lemma_small_mod(x as nat, 0x10000);
    } else {
        lemma_mod_add_multiples_vanish(x, 0x10000);
        lemma_small_mod((x + 0x10000) as nat, 0x10000);
    }
    lemma_small_mod(unsigned_of(x) as nat, 0x10000);
}

} // verus!
