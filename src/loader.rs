//! Decoding of raw program files into a memory image. Programs are placed
//! from address `x3000` on.

use crate::lexer::{is_whitespace, white_space};
use crate::numeral::{lemma_digits_value_nonneg, lemma_u16_as_i16, numeral_value, parse_u16_radix, word_of};
use vstd::prelude::*;

verus! {

/// The address a loaded program starts at.
pub const PROGRAM_START: usize = 0x3000;

/// The most words a program file may hold: it must end below `xFE00`.
pub const MAX_PROGRAM_WORDS: usize = 0xce00;

/// The kinds of program file, each with its path.
pub enum Filetype {
    Asm(&'static str),
    PlaintextBinary(&'static str),
    EncodedBinary(&'static str),
}

impl Filetype {
    /// The path of the file.
    pub fn path(&self) -> (r: &'static str)
        ensures
            r == match self {
                Filetype::Asm(p) => *p,
                Filetype::PlaintextBinary(p) => *p,
                Filetype::EncodedBinary(p) => *p,
            },
    {
        match self {
            Filetype::Asm(p) => p,
            Filetype::PlaintextBinary(p) => p,
            Filetype::EncodedBinary(p) => p,
        }
    }
}

/// Why a program file cannot be loaded.
#[derive(Clone, Copy, PartialEq, Eq, Structural, Debug)]
pub enum LoadError {
    /// A packed file with an odd number of bytes (the count).
    OddByteCount(usize),
    /// A text file whose digit count is no multiple of 16 (the count).
    IncompleteWord(usize),
    /// More words than fit below `xFE00` (the number of words).
    TooLong(usize),
    /// The word at this index holds a character other than `0` or `1`.
    BadDigit(usize),
}

/// The memory image holding `words` from `PROGRAM_START` on, zero elsewhere.
pub open spec fn program_image(words: Seq<i16>) -> Seq<i16> {
    Seq::new(
        0x10000,
        |a: int|
            if PROGRAM_START <= a < PROGRAM_START + words.len() {
                words[a - PROGRAM_START]
            } else {
                0i16
            },
    )
}

/// The words of a packed file: each pair of bytes, most significant first.
pub open spec fn packed_words(b: Seq<u8>) -> Seq<i16> {
    Seq::new(b.len() / 2, |k: int| word_of(b[2 * k] as int * 256 + b[2 * k + 1] as int) as i16)
}

/// The image that a packed file decodes to, or why it cannot.
pub open spec fn packed_image(b: Seq<u8>) -> Result<Seq<i16>, LoadError> {
    if b.len() % 2 != 0 {
        Err(LoadError::OddByteCount(b.len() as usize))
    } else if b.len() > 2 * MAX_PROGRAM_WORDS {
        Err(LoadError::TooLong((b.len() / 2) as usize))
    } else {
        Ok(program_image(packed_words(b)))
    }
}

/// Places `words` at `PROGRAM_START` in an otherwise zero image.
fn place_program(words: &Vec<i16>) -> (r: Vec<i16>)
    requires
        words@.len() <= MAX_PROGRAM_WORDS,
    ensures
        r@ == program_image(words@),
{
    let mut r: Vec<i16> = Vec::new();
    let mut a: usize = 0;
    while a < 0x10000
        invariant
            a <= 0x10000,
            words@.len() <= MAX_PROGRAM_WORDS,
            forall|k: int| 0 <= k < a ==> r@[k] == #[trigger] program_image(words@)[k],
            r@.len() == a,
        decreases 0x10000 - a,
    {
        if PROGRAM_START <= a && a < PROGRAM_START + words.len() {
            r.push(words[a - PROGRAM_START]);
        } else {
            r.push(0);
        }
        a = a + 1;
    }
    assert(r@ =~= program_image(words@));
    r
}

/// Decodes a packed binary file: big-endian 16-bit words.
pub fn words_from_bytes(bytes: &[u8]) -> (r: Result<Vec<i16>, LoadError>)
    ensures
        match packed_image(bytes@) {
            Ok(m) => r matches Ok(v) && v@ == m,
            Err(e) => r == Err::<Vec<i16>, LoadError>(e),
        },
{
    let n = bytes.len();
    if n % 2 != 0 {
        return Err(LoadError::OddByteCount(n));
    }
    if n > 2 * MAX_PROGRAM_WORDS {
        return Err(LoadError::TooLong(n / 2));
    }
    let mut words: Vec<i16> = Vec::new();
    let mut k: usize = 0;
    while k < n / 2
        invariant
            n == bytes@.len(),
            n % 2 == 0,
            n <= 2 * MAX_PROGRAM_WORDS,
            k <= n / 2,
            words@ == packed_words(bytes@).subrange(0, k as int),
        decreases n / 2 - k,
    {
        let w: u16 = bytes[2 * k] as u16 * 256 + bytes[2 * k + 1] as u16;
        proof {
            lemma_u16_as_i16(w);
        }
        words.push(#[verifier::truncate] (w as i16));
        k = k + 1;
        assert(words@ =~= packed_words(bytes@).subrange(0, k as int));
    }
    assert(words@ =~= packed_words(bytes@));
    Ok(place_program(&words))
}

/// `t` without its white space.
pub open spec fn strip_whitespace(t: Seq<char>) -> Seq<char>
    decreases t.len(),
{
    if t.len() == 0 {
        t
    } else if white_space(t.last()) {
        strip_whitespace(t.drop_last())
    } else {
        strip_whitespace(t.drop_last()).push(t.last())
    }
}

/// Word `k` of the digit string `d`: sixteen binary digits.
pub open spec fn text_word(d: Seq<char>, k: int) -> Option<i16> {
    match numeral_value(d.subrange(16 * k, 16 * k + 16), 2, false) {
        Some(v) => if v < 0x10000 {
            Some(word_of(v) as i16)
        } else {
            None
        },
        None => None,
    }
}

/// `k` is the first of the `n` words of `d` that is not binary.
pub open spec fn first_bad_word(d: Seq<char>, n: int, k: int) -> bool {
    &&& 0 <= k < n
    &&& text_word(d, k) is None
    &&& forall|j: int| 0 <= j < k ==> #[trigger] text_word(d, j) is Some
}

/// The image that a text file of binary digits decodes to, or why it
/// cannot. White space is ignored; each sixteen digits make a word.
pub open spec fn text_image(t: Seq<char>) -> Result<Seq<i16>, LoadError> {
    let d = strip_whitespace(t);
    let n = d.len() / 16;
    if d.len() % 16 != 0 {
        Err(LoadError::IncompleteWord(d.len() as usize))
    } else if d.len() > 16 * MAX_PROGRAM_WORDS {
        Err(LoadError::TooLong(n as usize))
    } else if exists|k: int| first_bad_word(d, n as int, k) {
        Err(LoadError::BadDigit((choose|k: int| first_bad_word(d, n as int, k)) as usize))
    } else {
        Ok(program_image(Seq::new(n, |k: int| text_word(d, k)->0)))
    }
}

/// Decodes a text file of binary digits, sixteen to a word.
pub fn words_from_bit_text(text: &[char]) -> (r: Result<Vec<i16>, LoadError>)
    ensures
        match text_image(text@) {
            Ok(m) => r matches Ok(v) && v@ == m,
            Err(e) => r == Err::<Vec<i16>, LoadError>(e),
        },
{
    let mut d: Vec<char> = Vec::new();
    let mut i: usize = 0;
    while i < text.len()
        invariant
            i <= text@.len(),
            d@ == strip_whitespace(text@.subrange(0, i as int)),
        decreases text@.len() - i,
    {
        assert(text@.subrange(0, i + 1).drop_last() =~= text@.subrange(0, i as int));
        if !is_whitespace(text[i]) {
            d.push(text[i]);
        }
        i = i + 1;
    }
    assert(text@.subrange(0, i as int) =~= text@);
    let len = d.len();
    if len % 16 != 0 {
        return Err(LoadError::IncompleteWord(len));
    }
    if len > 16 * MAX_PROGRAM_WORDS {
        return Err(LoadError::TooLong(len / 16));
    }
    let n = len / 16;
    let mut words: Vec<i16> = Vec::new();
    let mut k: usize = 0;
    while k < n
        invariant
            len == d@.len(),
            d@ == strip_whitespace(text@),
            n == len / 16,
            len % 16 == 0,
            len <= 16 * MAX_PROGRAM_WORDS,
            k <= n,
            forall|j: int| 0 <= j < k ==> #[trigger] text_word(d@, j) is Some,
            words@ == Seq::new(k as nat, |j: int| text_word(d@, j)->0),
        decreases n - k,
    {
        let chunk = &d.as_slice()[16 * k..16 * k + 16];
        assert(chunk@ =~= d@.subrange(16 * k, 16 * k + 16));
        match parse_u16_radix(chunk, 2) {
            Some(w) => {
                proof {
                    lemma_u16_as_i16(w);
                    lemma_digits_value_nonneg(chunk@, 2);
                    lemma_digits_value_nonneg(chunk@.drop_first(), 2);
                }
                words.push(#[verifier::truncate] (w as i16));
            },
            None => {
                proof {
                    assert(first_bad_word(d@, n as int, k as int));
                    let c = choose|c: int| first_bad_word(d@, n as int, c);
                    assert(first_bad_word(d@, n as int, c));
                    if c < k {
                        assert(text_word(d@, c) is Some);
                    } else if c > k {
                        assert(text_word(d@, k as int) is Some);
                    }
                    assert(c == k);
                }
                return Err(LoadError::BadDigit(k));
            },
        }
        k = k + 1;
        assert(words@ =~= Seq::new(k as nat, |j: int| text_word(d@, j)->0));
    }
    assert(!exists|c: int| first_bad_word(d@, n as int, c));
    Ok(place_program(&words))
}

} // verus!
