//! Turns assembly source text into a flat sequence of tokens.

use crate::numeral::{
    literal_value, parse_register_without_comma, parse_signed_hex_or_decimal_literal,
    register_number,
};
use vstd::prelude::*;

verus! {

/// Opcodes and directives of the assembly language. A conditional branch
/// carries its `nzp` condition mask.
#[derive(Clone, Copy, PartialEq, Eq, Structural, Debug)]
pub enum Keyword {
    Orig,
    Fill,
    Blkw,
    Stringz,
    End,
    Add,
    And,
    Not,
    Br(u16),
    Jmp,
    Jsr,
    Jsrr,
    Ld,
    Ldi,
    Ldr,
    Lea,
    St,
    Sti,
    Str,
    Getc,
    Out,
    Puts,
    In,
    Halt,
}

/// The keyword that the word `w` spells, if any.
pub open spec fn keyword_of(w: Seq<char>) -> Option<Keyword> {
    if w == ".orig"@ {
        Some(Keyword::Orig)
    } else if w == ".fill"@ {
        Some(Keyword::Fill)
    } else if w == ".blkw"@ {
        Some(Keyword::Blkw)
    } else if w == ".stringz"@ {
        Some(Keyword::Stringz)
    } else if w == ".end"@ {
        Some(Keyword::End)
    } else if w == "add"@ {
        Some(Keyword::Add)
    } else if w == "and"@ {
        Some(Keyword::And)
    } else if w == "not"@ {
        Some(Keyword::Not)
    } else if w == "br"@ {
        Some(Keyword::Br(0b111))
    } else if w == "brn"@ {
        Some(Keyword::Br(0b100))
    } else if w == "brz"@ {
        Some(Keyword::Br(0b010))
    } else if w == "brp"@ {
        Some(Keyword::Br(0b001))
    } else if w == "brnz"@ {
        Some(Keyword::Br(0b110))
    } else if w == "brnp"@ {
        Some(Keyword::Br(0b101))
    } else if w == "brzp"@ {
        Some(Keyword::Br(0b011))
    } else if w == "brnzp"@ {
        Some(Keyword::Br(0b111))
    } else if w == "jmp"@ {
        Some(Keyword::Jmp)
    } else if w == "jsr"@ {
        Some(Keyword::Jsr)
    } else if w == "jsrr"@ {
        Some(Keyword::Jsrr)
    } else if w == "ld"@ {
        Some(Keyword::Ld)
    } else if w == "ldi"@ {
        Some(Keyword::Ldi)
    } else if w == "ldr"@ {
        Some(Keyword::Ldr)
    } else if w == "lea"@ {
        Some(Keyword::Lea)
    } else if w == "st"@ {
        Some(Keyword::St)
    } else if w == "sti"@ {
        Some(Keyword::Sti)
    } else if w == "str"@ {
        Some(Keyword::Str)
    } else if w == "getc"@ {
        Some(Keyword::Getc)
    } else if w == "out"@ {
        Some(Keyword::Out)
    } else if w == "puts"@ {
        Some(Keyword::Puts)
    } else if w == "in"@ {
        Some(Keyword::In)
    } else if w == "halt"@ {
        Some(Keyword::Halt)
    } else {
        None
    }
}

/// Whether `w` holds exactly the characters of `lit`.
pub fn chars_match(w: &[char], lit: &str) -> (r: bool)
    ensures
        r == (w@ == lit@),
{
    let n = lit.unicode_len();
    if w.len() != n {
        return false;
    }
    let mut i: usize = 0;
    while i < n
        invariant
            n == w@.len() == lit@.len(),
            i <= n,
            forall|k: int| 0 <= k < i ==> w@[k] == lit@[k],
        decreases n - i,
    {
        if w[i] != lit.get_char(i) {
            return false;
        }
        i = i + 1;
    }
    assert(w@ =~= lit@);
    true
}

/// The keyword spelled by `w`, if any.
pub fn lookup_keyword(w: &[char]) -> (r: Option<Keyword>)
    ensures
        r == keyword_of(w@),
{
    if chars_match(w, ".orig") {
        Some(Keyword::Orig)
    } else if chars_match(w, ".fill") {
        Some(Keyword::Fill)
    } else if chars_match(w, ".blkw") {
        Some(Keyword::Blkw)
    } else if chars_match(w, ".stringz") {
        Some(Keyword::Stringz)
    } else if chars_match(w, ".end") {
        Some(Keyword::End)
    } else if chars_match(w, "add") {
        Some(Keyword::Add)
    } else if chars_match(w, "and") {
        Some(Keyword::And)
    } else if chars_match(w, "not") {
        Some(Keyword::Not)
    } else if chars_match(w, "br") {
        Some(Keyword::Br(0b111))
    } else if chars_match(w, "brn") {
        Some(Keyword::Br(0b100))
    } else if chars_match(w, "brz") {
        Some(Keyword::Br(0b010))
    } else if chars_match(w, "brp") {
        Some(Keyword::Br(0b001))
    } else if chars_match(w, "brnz") {
        Some(Keyword::Br(0b110))
    } else if chars_match(w, "brnp") {
        Some(Keyword::Br(0b101))
    } else if chars_match(w, "brzp") {
        Some(Keyword::Br(0b011))
    } else if chars_match(w, "brnzp") {
        Some(Keyword::Br(0b111))
    } else if chars_match(w, "jmp") {
        Some(Keyword::Jmp)
    } else if chars_match(w, "jsr") {
        Some(Keyword::Jsr)
    } else if chars_match(w, "jsrr") {
        Some(Keyword::Jsrr)
    } else if chars_match(w, "ld") {
        Some(Keyword::Ld)
    } else if chars_match(w, "ldi") {
        Some(Keyword::Ldi)
    } else if chars_match(w, "ldr") {
        Some(Keyword::Ldr)
    } else if chars_match(w, "lea") {
        Some(Keyword::Lea)
    } else if chars_match(w, "st") {
        Some(Keyword::St)
    } else if chars_match(w, "sti") {
        Some(Keyword::Sti)
    } else if chars_match(w, "str") {
        Some(Keyword::Str)
    } else if chars_match(w, "getc") {
        Some(Keyword::Getc)
    } else if chars_match(w, "out") {
        Some(Keyword::Out)
    } else if chars_match(w, "puts") {
        Some(Keyword::Puts)
    } else if chars_match(w, "in") {
        Some(Keyword::In)
    } else if chars_match(w, "halt") {
        Some(Keyword::Halt)
    } else {
        None
    }
}

/// Whether `w` is a reserved word of the language.
pub fn is_keyword(w: &[char]) -> (r: bool)
    ensures
        r == (keyword_of(w@) is Some),
{
    lookup_keyword(w).is_some()
}

/// One lexical unit of the source.
#[derive(Debug)]
pub enum Token {
    Op(Keyword),
    Register(u16),
    NumericLiteral(i16),
    StringLiteral(Vec<char>),
    Label(Vec<char>),
    Comma,
    Newline,
}

/// What a token holds, with its text as a sequence.
pub enum TokenView {
    Op(Keyword),
    Register(u16),
    NumericLiteral(i16),
    StringLiteral(Seq<char>),
    Label(Seq<char>),
    Comma,
    Newline,
}

impl View for Token {
    type V = TokenView;

    open spec fn view(&self) -> TokenView {
        match self {
            Token::Op(k) => TokenView::Op(*k),
            Token::Register(n) => TokenView::Register(*n),
            Token::NumericLiteral(v) => TokenView::NumericLiteral(*v),
            Token::StringLiteral(t) => TokenView::StringLiteral(t@),
            Token::Label(t) => TokenView::Label(t@),
            Token::Comma => TokenView::Comma,
            Token::Newline => TokenView::Newline,
        }
    }
}

/// The views of a sequence of tokens.
pub open spec fn token_views(ts: Seq<Token>) -> Seq<TokenView> {
    ts.map_values(|t: Token| t@)
}

/// What went wrong while reading a token.
#[derive(Clone, Copy, PartialEq, Eq, Structural, Debug)]
pub enum LexErrorKind {
    /// Nothing is left to read.
    EndOfInput,
    /// A string literal has no closing quote.
    UnterminatedString,
    /// A word that starts like a number does not spell one in range.
    MalformedNumber,
    /// A word that starts like a register does not name `r0` to `r7`.
    MalformedRegister,
}

/// A failure to read a token: its kind, the line it was met on, and the
/// offending characters `start..end` of the (lower-cased) source.
#[derive(Clone, Copy, PartialEq, Eq, Structural, Debug)]
pub struct LexError {
    pub kind: LexErrorKind,
    pub line: usize,
    pub start: usize,
    pub end: usize,
}

/// The characters of Unicode's `White_Space` property.
pub open spec fn white_space(c: char) -> bool {
    ('\u{9}' <= c <= '\u{d}') || c == '\u{20}' || c == '\u{85}' || c == '\u{a0}' || c
        == '\u{1680}' || ('\u{2000}' <= c <= '\u{200a}') || c == '\u{2028}' || c == '\u{2029}'
        || c == '\u{202f}' || c == '\u{205f}' || c == '\u{3000}'
}

/// Relies on `char::is_whitespace`, which is true exactly of the characters
/// with Unicode's `White_Space` property.
#[verifier::external_body]
pub(crate) fn is_whitespace(c: char) -> (r: bool)
    ensures
        r == white_space(c),
{
    c.is_whitespace()
}

/// Characters that end a word: white space (line breaks included) and the
/// comma.
pub open spec fn separates(c: char) -> bool {
    white_space(c) || c == ','
}

pub open spec fn decimal_digit(c: char) -> bool {
    '0' <= c <= '9'
}

pub open spec fn hex_digit(c: char) -> bool {
    ('0' <= c <= '9') || ('a' <= c <= 'f') || ('A' <= c <= 'F')
}

/// The end of the word that starts at `i`: the first separator at or after
/// `i`, or the end of `s`.
pub open spec fn word_end(s: Seq<char>, i: int) -> int
    decreases s.len() - i,
{
    if i < s.len() && !separates(s[i]) {
        word_end(s, i + 1)
    } else {
        i
    }
}

/// The first double quote at or after `i`, or the end of `s`.
pub open spec fn quote_end(s: Seq<char>, i: int) -> int
    decreases s.len() - i,
{
    if i < s.len() && s[i] != '"' {
        quote_end(s, i + 1)
    } else {
        i
    }
}

/// The name a label word defines: the word without one trailing colon.
pub open spec fn label_name(w: Seq<char>) -> Seq<char> {
    if w.len() > 1 && w.last() == ':' {
        w.drop_last()
    } else {
        w
    }
}

/// The outcome of reading at one position.
pub enum Scan {
    /// Whitespace: nothing is emitted, reading goes on at the position.
    Skip(int),
    /// A token is emitted and reading goes on at the position.
    Emit(TokenView, int),
    /// Reading fails on the characters between the two positions.
    Fail(LexErrorKind, int, int),
}

/// The token that starts at position `i` of `s`.
pub open spec fn scan(s: Seq<char>, i: int) -> Scan {
    if !(0 <= i < s.len()) {
        Scan::Fail(LexErrorKind::EndOfInput, i, i)
    } else {
        let c = s[i];
        let next_decimal = i + 1 < s.len() && decimal_digit(s[i + 1]);
        let next_hex = i + 1 < s.len() && hex_digit(s[i + 1]);
        let e = word_end(s, i);
        if white_space(c) && c != '\n' && c != '\r' {
            Scan::Skip(i + 1)
        } else if c == ',' {
            Scan::Emit(TokenView::Comma, i + 1)
        } else if c == '\n' {
            Scan::Emit(TokenView::Newline, i + 1)
        } else if c == '\r' {
            Scan::Emit(
                TokenView::Newline,
                if i + 1 < s.len() && s[i + 1] == '\n' {
                    i + 2
                } else {
                    i + 1
                },
            )
        } else if c == '"' {
            let q = quote_end(s, i + 1);
            if q >= s.len() {
                Scan::Fail(LexErrorKind::UnterminatedString, i, s.len() as int)
            } else {
                Scan::Emit(TokenView::StringLiteral(s.subrange(i + 1, q)), q + 1)
            }
        } else if c == 'r' && next_decimal {
            match register_number(s.subrange(i, e)) {
                Some(n) => Scan::Emit(TokenView::Register(n as u16), e),
                None => Scan::Fail(LexErrorKind::MalformedRegister, i, e),
            }
        } else if (c == 'x' && next_hex) || (c == '-' && next_decimal) || decimal_digit(c) {
            match literal_value(s.subrange(i, e)) {
                Some(v) => Scan::Emit(TokenView::NumericLiteral(v as i16), e),
                None => Scan::Fail(LexErrorKind::MalformedNumber, i, e),
            }
        } else {
            let w = s.subrange(i, e);
            match keyword_of(w) {
                Some(k) => Scan::Emit(TokenView::Op(k), e),
                None => Scan::Emit(TokenView::Label(label_name(w)), e),
            }
        }
    }
}

/// The tokens of `s` from position `i` on, or the first failure.
pub open spec fn lex_from(s: Seq<char>, i: int) -> Result<Seq<TokenView>, (LexErrorKind, int, int)>
    decreases s.len() - i,
    via lex_from_decreases
{
    if i < 0 || i >= s.len() {
        Ok(Seq::empty())
    } else {
        match scan(s, i) {
            Scan::Skip(j) => lex_from(s, j),
            Scan::Emit(t, j) => match lex_from(s, j) {
                Ok(ts) => Ok(seq![t] + ts),
                Err(e) => Err(e),
            },
            Scan::Fail(k, a, b) => Err((k, a, b)),
        }
    }
}

#[via_fn]
proof fn lex_from_decreases(s: Seq<char>, i: int) {
    if 0 <= i < s.len() {
        lemma_scan_advances(s, i);
    }
}

proof fn lemma_word_end_bounds(s: Seq<char>, i: int)
    requires
        0 <= i <= s.len(),
    ensures
        i <= word_end(s, i) <= s.len(),
        i < s.len() && !separates(s[i]) ==> i < word_end(s, i),
    decreases s.len() - i,
{
    if i < s.len() && !separates(s[i]) {
        lemma_word_end_bounds(s, i + 1);
    }
}

proof fn lemma_quote_end_bounds(s: Seq<char>, i: int)
    requires
        0 <= i <= s.len(),
    ensures
        i <= quote_end(s, i) <= s.len(),
        quote_end(s, i) < s.len() ==> s[quote_end(s, i)] == '"',
    decreases s.len() - i,
{
    if i < s.len() && s[i] != '"' {
        lemma_quote_end_bounds(s, i + 1);
    }
}

/// Reading at a position inside `s` always moves forward.
pub proof fn lemma_scan_advances(s: Seq<char>, i: int)
    requires
        0 <= i < s.len(),
    ensures
        match scan(s, i) {
            Scan::Skip(j) => i < j <= s.len(),
            Scan::Emit(_, j) => i < j <= s.len(),
            Scan::Fail(_, a, b) => a == i && i <= b <= s.len(),
        },
{
    lemma_word_end_bounds(s, i);
    lemma_quote_end_bounds(s, i + 1);
}

/// The lexer: the lower-cased source, a cursor into it, and the tokens read
/// so far.
pub struct ParserState {
    pub cursor: usize,
    pub characters: Vec<char>,
    pub parsed_tokens: Vec<Token>,
    pub line_number: usize,
}

/// The line count after reading `t` on line `line`.
pub open spec fn line_after(line: usize, t: TokenView) -> usize {
    if t is Newline && line < usize::MAX {
        (line + 1) as usize
    } else {
        line
    }
}

impl ParserState {
    pub open spec fn wf(&self) -> bool {
        self.cursor <= self.characters@.len()
    }

    pub open spec fn tokens(&self) -> Seq<TokenView> {
        token_views(self.parsed_tokens@)
    }

    /// A lexer at the start of `characters`, with no tokens read.
    pub fn from_chars(characters: Vec<char>) -> (r: Self)
        ensures
            r.wf(),
            r.cursor == 0,
            r.characters@ == characters@,
            r.tokens() == Seq::<TokenView>::empty(),
            r.line_number == 1,
    {
        let r = ParserState { cursor: 0, characters, parsed_tokens: Vec::new(), line_number: 1 };
        assert(r.tokens() =~= Seq::<TokenView>::empty());
        r
    }

    /// The character under the cursor, if any.
    pub fn peek(&self) -> (r: Option<char>)
        requires
            self.wf(),
        ensures
            r == (if self.cursor < self.characters@.len() {
                Some(self.characters@[self.cursor as int])
            } else {
                None
            }),
    {
        if self.cursor < self.characters.len() {
            Some(self.characters[self.cursor])
        } else {
            None
        }
    }

    /// The character under the cursor, if any, moving the cursor past it.
    pub fn pop(&mut self) -> (r: Option<char>)
        requires
            old(self).wf(),
        ensures
            final(self).wf(),
            final(self).characters@ == old(self).characters@,
            final(self).parsed_tokens@ == old(self).parsed_tokens@,
            final(self).line_number == old(self).line_number,
            old(self).cursor < old(self).characters@.len() ==> r == Some(
                old(self).characters@[old(self).cursor as int],
            ) && final(self).cursor == old(self).cursor + 1,
            old(self).cursor >= old(self).characters@.len() ==> r is None && final(self).cursor
                == old(self).cursor,
    {
        if self.cursor < self.characters.len() {
            let c = self.characters[self.cursor];
            self.cursor = self.cursor + 1;
            Some(c)
        } else {
            None
        }
    }

    /// Appends a token.
    pub fn push_token(&mut self, t: Token)
        ensures
            final(self).tokens() == old(self).tokens().push(t@),
            final(self).cursor == old(self).cursor,
            final(self).characters@ == old(self).characters@,
            final(self).line_number == old(self).line_number,
    {
        self.parsed_tokens.push(t);
        assert(self.tokens() =~= old(self).tokens().push(t@));
    }

    /// Counts one more line, saturating.
    pub fn increment_line_number(&mut self)
        ensures
            final(self).line_number == line_after(old(self).line_number, TokenView::Newline),
            final(self).cursor == old(self).cursor,
            final(self).characters@ == old(self).characters@,
            final(self).parsed_tokens@ == old(self).parsed_tokens@,
    {
        if self.line_number < usize::MAX {
            self.line_number = self.line_number + 1;
        }
    }

    /// The token at index `addr`.
    pub fn get_token(&self, addr: usize) -> (r: &Token)
        requires
            addr < self.parsed_tokens@.len(),
        ensures
            r@ == self.tokens()[addr as int],
    {
        &self.parsed_tokens[addr]
    }

    /// Moves the cursor to the end of the word under it and returns the
    /// word.
    fn read_word(&mut self) -> (w: Vec<char>)
        requires
            old(self).wf(),
        ensures
            final(self).wf(),
            final(self).characters@ == old(self).characters@,
            final(self).parsed_tokens@ == old(self).parsed_tokens@,
            final(self).line_number == old(self).line_number,
            final(self).cursor == word_end(old(self).characters@, old(self).cursor as int),
            w@ == old(self).characters@.subrange(
                old(self).cursor as int,
                final(self).cursor as int,
            ),
    {
        let ghost start = self.cursor as int;
        let ghost s = self.characters@;
        let mut w: Vec<char> = Vec::new();
        while self.cursor < self.characters.len() && !is_separator(self.characters[self.cursor])
            invariant
                self.wf(),
                self.characters@ == s,
                self.parsed_tokens@ == old(self).parsed_tokens@,
                self.line_number == old(self).line_number,
                start == old(self).cursor,
                start <= self.cursor,
                word_end(s, start) == word_end(s, self.cursor as int),
                w@ == s.subrange(start, self.cursor as int),
            decreases s.len() - self.cursor,
        {
            w.push(self.characters[self.cursor]);
            self.cursor = self.cursor + 1;
            assert(w@ =~= s.subrange(start, self.cursor as int));
        }
        w
    }

    /// Moves the cursor to the first double quote at or after it (or to the
    /// end) and returns the characters passed over.
    fn read_until_quote(&mut self) -> (w: Vec<char>)
        requires
            old(self).wf(),
        ensures
            final(self).wf(),
            final(self).characters@ == old(self).characters@,
            final(self).parsed_tokens@ == old(self).parsed_tokens@,
            final(self).line_number == old(self).line_number,
            final(self).cursor == quote_end(old(self).characters@, old(self).cursor as int),
            w@ == old(self).characters@.subrange(
                old(self).cursor as int,
                final(self).cursor as int,
            ),
    {
        let ghost start = self.cursor as int;
        let ghost s = self.characters@;
        let mut w: Vec<char> = Vec::new();
        while self.cursor < self.characters.len() && self.characters[self.cursor] != '"'
            invariant
                self.wf(),
                self.characters@ == s,
                self.parsed_tokens@ == old(self).parsed_tokens@,
                self.line_number == old(self).line_number,
                start == old(self).cursor,
                start <= self.cursor,
                quote_end(s, start) == quote_end(s, self.cursor as int),
                w@ == s.subrange(start, self.cursor as int),
            decreases s.len() - self.cursor,
        {
            w.push(self.characters[self.cursor]);
            self.cursor = self.cursor + 1;
            assert(w@ =~= s.subrange(start, self.cursor as int));
        }
        w
    }
}

impl ParserState {
    /// Reads the token under the cursor and appends it, or reports why it
    /// cannot be read.
    pub fn parse_one_token(&mut self) -> (r: Result<(), LexError>)
        requires
            old(self).wf(),
        ensures
            final(self).wf(),
            final(self).characters@ == old(self).characters@,
            match scan(old(self).characters@, old(self).cursor as int) {
                Scan::Skip(j) => {
                    &&& r is Ok
                    &&& final(self).cursor == j
                    &&& final(self).tokens() == old(self).tokens()
                    &&& final(self).line_number == old(self).line_number
                },
                Scan::Emit(t, j) => {
                    &&& r is Ok
                    &&& final(self).cursor == j
                    &&& final(self).tokens() == old(self).tokens().push(t)
                    &&& final(self).line_number == line_after(old(self).line_number, t)
                },
                Scan::Fail(k, a, b) => {
                    &&& r == Err::<(), LexError>(
                        (LexError {
                            kind: k,
                            line: old(self).line_number,
                            start: a as usize,
                            end: b as usize,
                        }),
                    )
                    &&& final(self).tokens() == old(self).tokens()
                    &&& final(self).line_number == old(self).line_number
                    &&& k is EndOfInput ==> final(self).cursor == old(self).cursor
                },
            },
    {
        let ghost s = self.characters@;
        let start = self.cursor;
        let len = self.characters.len();
        if start >= len {
            return Err(
                LexError { kind: LexErrorKind::EndOfInput, line: self.line_number, start, end: start },
            );
        }
        proof {
            lemma_word_end_bounds(s, start as int);
            lemma_quote_end_bounds(s, start + 1);
        }
        let c = self.characters[start];
        let next_decimal = start + 1 < len && is_decimal_digit(self.characters[start + 1]);
        let next_hex = start + 1 < len && is_hex_digit(self.characters[start + 1]);
        self.cursor = start + 1;
        if is_whitespace(c) && c != '\n' && c != '\r' {
            Ok(())
        } else if c == ',' {
            self.push_token(Token::Comma);
            Ok(())
        } else if c == '\n' {
            self.push_token(Token::Newline);
            self.increment_line_number();
            Ok(())
        } else if c == '\r' {
            if start + 1 < len && self.characters[start + 1] == '\n' {
                self.cursor = start + 2;
            }
            self.push_token(Token::Newline);
            self.increment_line_number();
            Ok(())
        } else if c == '"' {
            let text = self.read_until_quote();
            if self.cursor >= len {
                return Err(
                    LexError {
                        kind: LexErrorKind::UnterminatedString,
                        line: self.line_number,
                        start,
                        end: len,
                    },
                );
            }
            self.cursor = self.cursor + 1;
            self.push_token(Token::StringLiteral(text));
            Ok(())
        } else if c == 'r' && next_decimal {
            self.cursor = start;
            let w = self.read_word();
            match parse_register_without_comma(w.as_slice()) {
                Some(n) => {
                    self.push_token(Token::Register(n));
                    Ok(())
                },
                None => Err(
                    LexError {
                        kind: LexErrorKind::MalformedRegister,
                        line: self.line_number,
                        start,
                        end: self.cursor,
                    },
                ),
            }
        } else if (c == 'x' && next_hex) || (c == '-' && next_decimal) || is_decimal_digit(c) {
            self.cursor = start;
            let w = self.read_word();
            match parse_signed_hex_or_decimal_literal(w.as_slice()) {
                Some(v) => {
                    self.push_token(Token::NumericLiteral(v));
                    Ok(())
                },
                None => Err(
                    LexError {
                        kind: LexErrorKind::MalformedNumber,
                        line: self.line_number,
                        start,
                        end: self.cursor,
                    },
                ),
            }
        } else {
            self.cursor = start;
            let mut w = self.read_word();
            match lookup_keyword(w.as_slice()) {
                Some(k) => {
                    self.push_token(Token::Op(k));
                },
                None => {
                    if w.len() > 1 && w[w.len() - 1] == ':' {
                        w.pop();
                    }
                    assert(w@ == label_name(s.subrange(start as int, self.cursor as int)));
                    self.push_token(Token::Label(w));
                },
            }
            Ok(())
        }
    }

    /// Reads every token from the cursor to the end of the source.
    pub fn tokenize(&mut self) -> (r: Result<(), LexError>)
        requires
            old(self).wf(),
        ensures
            final(self).wf(),
            final(self).characters@ == old(self).characters@,
            match lex_from(old(self).characters@, old(self).cursor as int) {
                Ok(ts) => r is Ok && final(self).tokens() == old(self).tokens() + ts,
                Err((k, a, b)) => {
                    &&& r matches Err(e) && e.kind == k && e.start == a && e.end == b
                    &&& final(self).tokens().len() >= old(self).tokens().len()
                    &&& final(self).tokens().subrange(0, old(self).tokens().len() as int)
                        == old(self).tokens()
                },
            },
    {
        let ghost s = self.characters@;
        let ghost start = self.cursor as int;
        let ghost before = self.tokens();
        proof {
            assert(self.tokens().subrange(before.len() as int, self.tokens().len() as int)
                =~= Seq::<TokenView>::empty());
            match lex_from(s, start) {
                Ok(ts) => {
                    assert(Seq::<TokenView>::empty() + ts =~= ts);
                },
                Err(_) => {},
            }
        }
        while self.cursor < self.characters.len()
            invariant
                self.wf(),
                self.characters@ == s,
                s == old(self).characters@,
                start == old(self).cursor,
                before == old(self).tokens(),
                0 <= start <= self.cursor,
                self.tokens().len() >= before.len(),
                self.tokens().subrange(0, before.len() as int) == before,
                lex_from(s, start) == match lex_from(s, self.cursor as int) {
                    Ok(ts) => Ok(self.tokens().subrange(before.len() as int, self.tokens().len() as int) + ts),
                    Err(e) => Err(e),
                },
            decreases s.len() - self.cursor,
        {
            let ghost c = self.cursor as int;
            let ghost done = self.tokens().subrange(before.len() as int, self.tokens().len() as int);
            proof {
                lemma_scan_advances(s, c);
            }
            let step = self.parse_one_token();
            match step {
                Ok(()) => {},
                Err(e) => {
                    return Err(e);
                },
            }
            proof {
                let done2 = self.tokens().subrange(before.len() as int, self.tokens().len() as int);
                match scan(s, c) {
                    Scan::Emit(t, j) => {
                        assert(done2 =~= done.push(t));
                        assert(self.tokens().subrange(0, before.len() as int) =~= before);
                        match lex_from(s, j) {
                            Ok(ts) => {
                                assert(done + (seq![t] + ts) =~= done2 + ts);
                            },
                            Err(_) => {},
                        }
                    },
                    _ => {
                        assert(done2 =~= done);
                    },
                }
            }
        }
        proof {
            let done = self.tokens().subrange(before.len() as int, self.tokens().len() as int);
            assert(done + Seq::<TokenView>::empty() =~= done);
            assert(self.tokens() =~= before + done);
        }
        Ok(())
    }
}

/// The lower-case form of the text `s`, as `str::to_lowercase` gives it.
pub uninterp spec fn lower_of(s: Seq<char>) -> Seq<char>;

/// Relies on `str::to_lowercase`, whose result depends on the characters of
/// the text alone; the result is handed back as its characters.
#[verifier::external_body]
fn lowercase_chars(s: &str) -> (r: Vec<char>)
    ensures
        r@ == lower_of(s@),
{
    s.to_lowercase().chars().collect()
}

impl ParserState {
    /// A lexer at the start of the lower-cased source `s`.
    pub fn new(s: &str) -> (r: Self)
        ensures
            r.wf(),
            r.cursor == 0,
            r.characters@ == lower_of(s@),
            r.tokens() == Seq::<TokenView>::empty(),
            r.line_number == 1,
    {
        ParserState::from_chars(lowercase_chars(s))
    }
}

/// Whether `c` is a decimal digit.
pub fn is_decimal_digit(c: char) -> (r: bool)
    ensures
        r == decimal_digit(c),
{
    '0' <= c && c <= '9'
}

/// Whether `c` is a hexadecimal digit.
pub fn is_hex_digit(c: char) -> (r: bool)
    ensures
        r == hex_digit(c),
{
    ('0' <= c && c <= '9') || ('a' <= c && c <= 'f') || ('A' <= c && c <= 'F')
}

/// Whether `c` ends a word.
pub fn is_separator(c: char) -> (r: bool)
    ensures
        r == separates(c),
{
    is_whitespace(c) || c == ','
}

} // verus!
