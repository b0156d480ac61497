//! The two-pass assembler: places instructions and data at their addresses,
//! then patches label references once every label is known.
//!
//! A label may be defined once. `.blkw` moves the address on without
//! writing the cells it skips. A label operand leaves its offset field zero
//! and is patched after the last token with the two's-complement offset from
//! the cell after the instruction to the label.

use crate::lexer::{
    lex_from, lower_of, token_views, Keyword, LexError, LexErrorKind, ParserState, Token, TokenView,
};
use crate::numeral::{lemma_u16_as_i16, word_of};
use crate::util::{last_n_bits, pow2_u32, unsigned_of, unsext};
use vstd::arithmetic::div_mod::{lemma_add_mod_noop, lemma_add_mod_noop_right};
use vstd::arithmetic::power2::{lemma2_to64, lemma_pow2_strictly_increases, pow2};
use vstd::prelude::*;

verus! {

/// What went wrong during assembly.
#[derive(Clone, Copy, PartialEq, Eq, Structural, Debug)]
pub enum AsmErrorKind {
    /// `.orig` inside an open `.orig` block.
    NestedOrig,
    /// `.end` with no open `.orig` block.
    EndWithoutOrig,
    /// An instruction, directive or label with no `.orig` block in effect.
    OutsideOrig,
    /// A token that cannot start a statement.
    UnexpectedToken,
    /// The tokens ended where an operand was due.
    MissingOperand,
    /// A register was due.
    ExpectedRegister,
    /// A register number above 7.
    RegisterOutOfRange,
    /// A comma was due.
    ExpectedComma,
    /// A numeric literal was due.
    ExpectedNumber,
    /// A string literal was due.
    ExpectedString,
    /// A register or numeric literal (or, for an offset, a label) was due.
    ExpectedOperand,
    /// An immediate or offset does not fit its field of the given width.
    OutOfRange(u16),
    /// A reserved word stands where a label was due.
    KeywordAsLabel,
    /// A label is defined twice.
    DuplicateLabel,
    /// A referenced label is never defined.
    UnresolvedLabel,
}

/// An assembly failure and the index of the token it concerns (the number
/// of tokens where they ran out).
#[derive(Clone, Copy, PartialEq, Eq, Structural, Debug)]
pub struct AsmError {
    pub kind: AsmErrorKind,
    pub token: usize,
}

pub open spec fn fail<T>(kind: AsmErrorKind, token: int) -> Result<T, AsmError> {
    Err(AsmError { kind, token: token as usize })
}

/// A label reference waiting for its label: the address of the
/// instruction, the label, the width of the offset field, and the token.
pub struct PendingView {
    pub addr: int,
    pub label: Seq<char>,
    pub width: int,
    pub token: int,
}

/// The assembler between two statements.
pub struct AsmState {
    /// Index of the next token.
    pub pos: int,
    /// The address of the next cell inside an `.orig` block; `None` outside.
    pub addr: Option<int>,
    pub mem: Seq<i16>,
    pub symbols: Seq<(Seq<char>, int)>,
    pub pending: Seq<PendingView>,
}

/// The address after `a`, wrapping round the 16-bit space.
pub open spec fn next_addr(a: int, n: int) -> int {
    (a + n) % 0x10000
}

/// `v` in two's complement, masked to a field of `width` bits.
pub open spec fn field(v: int, width: int) -> int {
    v % (pow2(width as nat) as int)
}

/// `v` fits a signed field of `width` bits.
pub open spec fn fits(v: int, width: int) -> bool {
    -(pow2((width - 1) as nat) as int) <= v < pow2((width - 1) as nat) as int
}

/// The register operand at token `j`.
pub open spec fn operand_register(toks: Seq<TokenView>, j: int) -> Result<u16, AsmError> {
    if !(0 <= j < toks.len()) {
        fail(AsmErrorKind::MissingOperand, toks.len() as int)
    } else {
        match toks[j] {
            TokenView::Register(r) => if r <= 7 {
                Ok(r)
            } else {
                fail(AsmErrorKind::RegisterOutOfRange, j)
            },
            _ => fail(AsmErrorKind::ExpectedRegister, j),
        }
    }
}

/// The comma at token `j`.
pub open spec fn operand_comma(toks: Seq<TokenView>, j: int) -> Result<(), AsmError> {
    if !(0 <= j < toks.len()) {
        fail(AsmErrorKind::MissingOperand, toks.len() as int)
    } else {
        match toks[j] {
            TokenView::Comma => Ok(()),
            _ => fail(AsmErrorKind::ExpectedComma, j),
        }
    }
}

/// A PC-relative or base-relative offset operand: a number already masked
/// to its field, or a label to patch later.
pub enum OffsetView {
    Field(int),
    Reference(Seq<char>),
}

/// The offset operand of `width` bits at token `j`.
pub open spec fn operand_offset(toks: Seq<TokenView>, j: int, width: int) -> Result<
    OffsetView,
    AsmError,
> {
    if !(0 <= j < toks.len()) {
        fail(AsmErrorKind::MissingOperand, toks.len() as int)
    } else {
        match toks[j] {
            TokenView::NumericLiteral(v) => if fits(v as int, width) {
                Ok(OffsetView::Field(field(v as int, width)))
            } else {
                fail(AsmErrorKind::OutOfRange(width as u16), j)
            },
            TokenView::Label(l) => Ok(OffsetView::Reference(l)),
            TokenView::Op(_) => fail(AsmErrorKind::KeywordAsLabel, j),
            _ => fail(AsmErrorKind::ExpectedOperand, j),
        }
    }
}

/// One instruction cell: its encoding (with a zero offset field where a
/// label is referenced), the token after it, and the reference, if any.
pub struct EncodedView {
    pub word: int,
    pub next: int,
    pub reference: Option<(Seq<char>, int, int)>,
}

pub open spec fn encoded(word: int, next: int) -> EncodedView {
    EncodedView { word, next, reference: None }
}

/// An instruction whose last operand is an offset at token `j`.
pub open spec fn with_offset(base: int, next: int, o: OffsetView, width: int, j: int) -> EncodedView {
    match o {
        OffsetView::Field(f) => EncodedView { word: base + f, next, reference: None },
        OffsetView::Reference(l) => EncodedView { word: base, next, reference: Some((l, width, j)) },
    }
}

/// The 4-bit opcode of the instructions that take a register and a 9-bit
/// PC-relative offset.
pub open spec fn pc_relative_opcode(k: Keyword) -> int {
    match k {
        Keyword::Ld => 0b0010,
        Keyword::Ldi => 0b1010,
        Keyword::St => 0b0011,
        Keyword::Sti => 0b1011,
        _ => 0b1110,
    }
}

/// The trap vector of a trap pseudo-op.
pub open spec fn trap_vector(k: Keyword) -> int {
    match k {
        Keyword::Getc => 0x20,
        Keyword::Out => 0x21,
        Keyword::Puts => 0x22,
        Keyword::In => 0x23,
        _ => 0x25,
    }
}

/// ADD or AND (`op`) with its operands from token `i + 1` on.
pub open spec fn encode_alu(toks: Seq<TokenView>, i: int, op: int) -> Result<EncodedView, AsmError> {
    match operand_register(toks, i + 1) {
        Err(e) => Err(e),
        Ok(dr) => match operand_comma(toks, i + 2) {
            Err(e) => Err(e),
            Ok(_) => match operand_register(toks, i + 3) {
                Err(e) => Err(e),
                Ok(sr1) => match operand_comma(toks, i + 4) {
                    Err(e) => Err(e),
                    Ok(_) => {
                        let base = op * 0x1000 + dr * 0x200 + sr1 * 0x40;
                        let j = i + 5;
                        if !(0 <= j < toks.len()) {
                            fail(AsmErrorKind::MissingOperand, toks.len() as int)
                        } else {
                            match toks[j] {
                                TokenView::Register(r) => if r <= 7 {
                                    Ok(encoded(base + r, j + 1))
                                } else {
                                    fail(AsmErrorKind::RegisterOutOfRange, j)
                                },
                                TokenView::NumericLiteral(v) => if -16 <= v <= 15 {
                                    Ok(encoded(base + 0x20 + field(v as int, 5), j + 1))
                                } else {
                                    fail(AsmErrorKind::OutOfRange(5), j)
                                },
                                _ => fail(AsmErrorKind::ExpectedOperand, j),
                            }
                        }
                    },
                },
            },
        },
    }
}

/// NOT with its operands from token `i + 1` on.
pub open spec fn encode_not(toks: Seq<TokenView>, i: int) -> Result<EncodedView, AsmError> {
    match operand_register(toks, i + 1) {
        Err(e) => Err(e),
        Ok(dr) => match operand_comma(toks, i + 2) {
            Err(e) => Err(e),
            Ok(_) => match operand_register(toks, i + 3) {
                Err(e) => Err(e),
                Ok(sr) => Ok(encoded(0x9000 + dr * 0x200 + sr * 0x40 + 0x3f, i + 4)),
            },
        },
    }
}

/// An instruction of one register operand at `i + 1` placed at bits 8..6.
pub open spec fn encode_base_register(toks: Seq<TokenView>, i: int, op: int) -> Result<
    EncodedView,
    AsmError,
> {
    match operand_register(toks, i + 1) {
        Err(e) => Err(e),
        Ok(r) => Ok(encoded(op * 0x1000 + r * 0x40, i + 2)),
    }
}

/// LD, LDI, LEA, ST or STI: a register, a comma and a 9-bit offset.
pub open spec fn encode_pc_relative(toks: Seq<TokenView>, i: int, op: int) -> Result<
    EncodedView,
    AsmError,
> {
    match operand_register(toks, i + 1) {
        Err(e) => Err(e),
        Ok(r) => match operand_comma(toks, i + 2) {
            Err(e) => Err(e),
            Ok(_) => match operand_offset(toks, i + 3, 9) {
                Err(e) => Err(e),
                Ok(o) => Ok(with_offset(op * 0x1000 + r * 0x200, i + 4, o, 9, i + 3)),
            },
        },
    }
}

/// LDR or STR: two registers and a 6-bit offset, comma-separated.
pub open spec fn encode_base_offset(toks: Seq<TokenView>, i: int, op: int) -> Result<
    EncodedView,
    AsmError,
> {
    match operand_register(toks, i + 1) {
        Err(e) => Err(e),
        Ok(r) => match operand_comma(toks, i + 2) {
            Err(e) => Err(e),
            Ok(_) => match operand_register(toks, i + 3) {
                Err(e) => Err(e),
                Ok(b) => match operand_comma(toks, i + 4) {
                    Err(e) => Err(e),
                    Ok(_) => match operand_offset(toks, i + 5, 6) {
                        Err(e) => Err(e),
                        Ok(o) => Ok(
                            with_offset(op * 0x1000 + r * 0x200 + b * 0x40, i + 6, o, 6, i + 5),
                        ),
                    },
                },
            },
        },
    }
}

/// The one-cell instruction `k` at token `i`.
pub open spec fn encode(toks: Seq<TokenView>, i: int, k: Keyword) -> Result<EncodedView, AsmError> {
    match k {
        Keyword::Add => encode_alu(toks, i, 0b0001),
        Keyword::And => encode_alu(toks, i, 0b0101),
        Keyword::Not => encode_not(toks, i),
        Keyword::Br(nzp) => match operand_offset(toks, i + 1, 9) {
            Err(e) => Err(e),
            Ok(o) => Ok(with_offset((nzp as int % 8) * 0x200, i + 2, o, 9, i + 1)),
        },
        Keyword::Jmp => encode_base_register(toks, i, 0b1100),
        Keyword::Jsr => match operand_offset(toks, i + 1, 11) {
            Err(e) => Err(e),
            Ok(o) => Ok(with_offset(0x4800, i + 2, o, 11, i + 1)),
        },
        Keyword::Jsrr => encode_base_register(toks, i, 0b0100),
        Keyword::Ldr => encode_base_offset(toks, i, 0b0110),
        Keyword::Str => encode_base_offset(toks, i, 0b0111),
        Keyword::Ld | Keyword::Ldi | Keyword::Lea | Keyword::St | Keyword::Sti => encode_pc_relative(
            toks,
            i,
            pc_relative_opcode(k),
        ),
        Keyword::Getc | Keyword::Out | Keyword::Puts | Keyword::In | Keyword::Halt => Ok(
            encoded(0xf000 + trap_vector(k), i + 1),
        ),
        _ => fail(AsmErrorKind::UnexpectedToken, i),
    }
}

/// A referenced offset field is between 1 and 16 bits wide.
pub proof fn lemma_encode_width(toks: Seq<TokenView>, i: int, k: Keyword)
    ensures
        encode(toks, i, k) matches Ok(e) ==> (e.reference matches Some(
            (l, w, j),
        ) ==> 1 <= w <= 16),
{
}

/// The numeric literal at token `j`.
pub open spec fn operand_number(toks: Seq<TokenView>, j: int) -> Result<i16, AsmError> {
    if !(0 <= j < toks.len()) {
        fail(AsmErrorKind::MissingOperand, toks.len() as int)
    } else {
        match toks[j] {
            TokenView::NumericLiteral(v) => Ok(v),
            _ => fail(AsmErrorKind::ExpectedNumber, j),
        }
    }
}

/// The string literal at token `j`.
pub open spec fn operand_string(toks: Seq<TokenView>, j: int) -> Result<Seq<char>, AsmError> {
    if !(0 <= j < toks.len()) {
        fail(AsmErrorKind::MissingOperand, toks.len() as int)
    } else {
        match toks[j] {
            TokenView::StringLiteral(t) => Ok(t),
            _ => fail(AsmErrorKind::ExpectedString, j),
        }
    }
}

/// The word holding the character `c`: its code point, truncated to 16 bits.
pub open spec fn char_word(c: char) -> i16 {
    word_of(c as int) as i16
}

/// `mem` with the characters of `t` written from address `a` on, then a
/// terminating zero.
pub open spec fn write_string(mem: Seq<i16>, a: int, t: Seq<char>) -> Seq<i16>
    decreases t.len(),
{
    if t.len() == 0 {
        mem.update(a, 0)
    } else {
        write_string(mem.update(a, char_word(t[0])), next_addr(a, 1), t.drop_first())
    }
}

proof fn lemma_next_addr_twice(a: int, m: int, k: int)
    ensures
        next_addr(next_addr(a, m), k) == next_addr(a, m + k),
{
    lemma_add_mod_noop_right(k, a + m, 0x10000);
}

/// Writing a string leaves every cell it does not reach as it was.
proof fn lemma_write_string_frame(mem: Seq<i16>, a: int, t: Seq<char>, x: int)
    requires
        mem.len() == 0x10000,
        0 <= a < 0x10000,
        0 <= x < 0x10000,
        forall|k: int| 0 <= k <= t.len() ==> #[trigger] next_addr(a, k) != x,
    ensures
        write_string(mem, a, t)[x] == mem[x],
        write_string(mem, a, t).len() == mem.len(),
    decreases t.len(),
{
    assert(next_addr(a, 0) == a);
    if t.len() > 0 {
        let a2 = next_addr(a, 1);
        let t2 = t.drop_first();
        assert forall|k: int| 0 <= k <= t2.len() implies #[trigger] next_addr(a2, k) != x by {
            lemma_next_addr_twice(a, 1, k);
            assert(next_addr(a, 1 + k) != x);
        }
        lemma_write_string_frame(mem.update(a, char_word(t[0])), a2, t2, x);
    }
}

/// `.stringz` layout: the characters of `t` fill successive cells from `a`
/// on, wrapping round memory, and a zero follows the last of them.
pub proof fn lemma_stringz_layout(mem: Seq<i16>, a: int, t: Seq<char>)
    requires
        mem.len() == 0x10000,
        0 <= a < 0x10000,
        t.len() < 0x10000,
    ensures
        write_string(mem, a, t).len() == 0x10000,
        forall|k: int|
            0 <= k < t.len() ==> #[trigger] write_string(mem, a, t)[next_addr(a, k)] == char_word(
                t[k],
            ),
        write_string(mem, a, t)[next_addr(a, t.len() as int)] == 0,
    decreases t.len(),
{
    assert(next_addr(a, 0) == a);
    if t.len() > 0 {
        let m2 = mem.update(a, char_word(t[0]));
        let a2 = next_addr(a, 1);
        let t2 = t.drop_first();
        lemma_stringz_layout(m2, a2, t2);
        let w = write_string(mem, a, t);
        assert forall|k: int| 0 <= k < t.len() implies #[trigger] w[next_addr(a, k)] == char_word(
            t[k],
        ) by {
            if k == 0 {
                assert forall|j: int| 0 <= j <= t2.len() implies #[trigger] next_addr(a2, j) != a by {
                    lemma_next_addr_twice(a, 1, j);
                }
                lemma_write_string_frame(m2, a2, t2, a);
            } else {
                lemma_next_addr_twice(a, 1, k - 1);
                assert(w[next_addr(a2, k - 1)] == char_word(t2[k - 1]));
            }
        }
        lemma_next_addr_twice(a, 1, t2.len() as int);
    }
}

/// The address bound to `name`, if any.
pub open spec fn lookup(symbols: Seq<(Seq<char>, int)>, name: Seq<char>) -> Option<int>
    decreases symbols.len(),
{
    if symbols.len() == 0 {
        None
    } else if symbols[0].0 == name {
        Some(symbols[0].1)
    } else {
        lookup(symbols.drop_first(), name)
    }
}

/// No label is bound twice.
pub open spec fn labels_unique(symbols: Seq<(Seq<char>, int)>) -> bool {
    forall|i: int, j: int| 0 <= i < j < symbols.len() ==> symbols[i].0 != symbols[j].0
}

/// A label is unbound exactly when no entry carries its name.
pub proof fn lemma_lookup_none(symbols: Seq<(Seq<char>, int)>, name: Seq<char>)
    ensures
        lookup(symbols, name) is None <==> forall|k: int|
            0 <= k < symbols.len() ==> #[trigger] symbols[k].0 != name,
    decreases symbols.len(),
{
    if symbols.len() > 0 {
        let rest = symbols.drop_first();
        lemma_lookup_none(rest, name);
        if lookup(symbols, name) is None {
            assert forall|k: int| 0 <= k < symbols.len() implies #[trigger] symbols[k].0 != name by {
                if k > 0 {
                    assert(rest[k - 1] == symbols[k]);
                }
            }
        } else if forall|k: int| 0 <= k < symbols.len() ==> #[trigger] symbols[k].0 != name {
            assert(symbols[0].0 != name);
            assert forall|k: int| 0 <= k < rest.len() implies #[trigger] rest[k].0 != name by {
                assert(rest[k] == symbols[k + 1]);
            }
        }
    }
}

/// One statement at token `st.pos`, which must exist.
pub open spec fn step(toks: Seq<TokenView>, st: AsmState) -> Result<AsmState, AsmError> {
    let i = st.pos;
    match st.addr {
        None => match toks[i] {
            TokenView::Newline => Ok(AsmState { pos: i + 1, ..st }),
            TokenView::Op(Keyword::Orig) => match operand_number(toks, i + 1) {
                Ok(v) => Ok(AsmState { pos: i + 2, addr: Some(unsigned_of(v as int)), ..st }),
                Err(e) => Err(e),
            },
            TokenView::Op(Keyword::End) => fail(AsmErrorKind::EndWithoutOrig, i),
            _ => fail(AsmErrorKind::OutsideOrig, i),
        },
        Some(a) => match toks[i] {
            TokenView::Newline => Ok(AsmState { pos: i + 1, ..st }),
            TokenView::Label(l) => if lookup(st.symbols, l) is Some {
                fail(AsmErrorKind::DuplicateLabel, i)
            } else {
                Ok(AsmState { pos: i + 1, symbols: st.symbols.push((l, a)), ..st })
            },
            TokenView::Op(Keyword::Orig) => fail(AsmErrorKind::NestedOrig, i),
            TokenView::Op(Keyword::End) => Ok(AsmState { pos: i + 1, addr: None, ..st }),
            TokenView::Op(Keyword::Fill) => match operand_number(toks, i + 1) {
                Ok(v) => Ok(
                    AsmState {
                        pos: i + 2,
                        addr: Some(next_addr(a, 1)),
                        mem: st.mem.update(a, v),
                        ..st
                    },
                ),
                Err(e) => Err(e),
            },
            TokenView::Op(Keyword::Blkw) => match operand_number(toks, i + 1) {
                Ok(v) => Ok(
                    AsmState { pos: i + 2, addr: Some(next_addr(a, unsigned_of(v as int))), ..st },
                ),
                Err(e) => Err(e),
            },
            TokenView::Op(Keyword::Stringz) => match operand_string(toks, i + 1) {
                Ok(t) => Ok(
                    AsmState {
                        pos: i + 2,
                        addr: Some(next_addr(a, t.len() as int + 1)),
                        mem: write_string(st.mem, a, t),
                        ..st
                    },
                ),
                Err(e) => Err(e),
            },
            TokenView::Op(k) => match encode(toks, i, k) {
                Ok(e) => Ok(
                    AsmState {
                        pos: e.next,
                        addr: Some(next_addr(a, 1)),
                        mem: st.mem.update(a, word_of(e.word) as i16),
                        symbols: st.symbols,
                        pending: match e.reference {
                            Some((l, w, j)) => st.pending.push(
                                PendingView { addr: a, label: l, width: w, token: j },
                            ),
                            None => st.pending,
                        },
                    },
                ),
                Err(e) => Err(e),
            },
            _ => fail(AsmErrorKind::UnexpectedToken, i),
        },
    }
}

/// Every statement from `st.pos` to the end of the tokens.
pub open spec fn place(toks: Seq<TokenView>, st: AsmState) -> Result<AsmState, AsmError>
    decreases toks.len() - st.pos,
    via place_decreases
{
    if !(0 <= st.pos < toks.len()) {
        Ok(st)
    } else {
        match step(toks, st) {
            Ok(n) => place(toks, n),
            Err(e) => Err(e),
        }
    }
}

#[via_fn]
proof fn place_decreases(toks: Seq<TokenView>, st: AsmState) {
    if 0 <= st.pos < toks.len() {
        lemma_step_advances(toks, st);
    }
}

/// A statement always moves past its first token.
pub proof fn lemma_step_advances(toks: Seq<TokenView>, st: AsmState)
    requires
        0 <= st.pos < toks.len(),
    ensures
        step(toks, st) matches Ok(n) ==> st.pos < n.pos,
{
}

/// `.orig` inside an open block stops assembly with a structural error.
pub proof fn lemma_nested_orig_rejected(toks: Seq<TokenView>, st: AsmState)
    requires
        0 <= st.pos < toks.len(),
        st.addr is Some,
        toks[st.pos] == TokenView::Op(Keyword::Orig),
    ensures
        place(toks, st) == fail::<AsmState>(AsmErrorKind::NestedOrig, st.pos),
{
}

/// `.end` with no open block stops assembly with a structural error.
pub proof fn lemma_end_without_orig_rejected(toks: Seq<TokenView>, st: AsmState)
    requires
        0 <= st.pos < toks.len(),
        st.addr is None,
        toks[st.pos] == TokenView::Op(Keyword::End),
    ensures
        place(toks, st) == fail::<AsmState>(AsmErrorKind::EndWithoutOrig, st.pos),
{
}

/// A source that opens with `.end` yields no image at all.
pub proof fn lemma_leading_end_yields_no_image(toks: Seq<TokenView>)
    requires
        toks.len() > 0,
        toks[0] == TokenView::Op(Keyword::End),
    ensures
        assemble(toks) == fail::<Seq<i16>>(AsmErrorKind::EndWithoutOrig, 0),
{
    lemma_end_without_orig_rejected(toks, initial_state());
}

/// An ADD or AND immediate outside `[-16, 15]` is a range error on that
/// operand, never a truncated encoding.
pub proof fn lemma_imm5_out_of_range(toks: Seq<TokenView>, i: int, op: int, v: i16)
    requires
        0 <= i,
        i + 5 < toks.len(),
        toks[i + 1] matches TokenView::Register(r) && r <= 7,
        toks[i + 2] is Comma,
        toks[i + 3] matches TokenView::Register(r) && r <= 7,
        toks[i + 4] is Comma,
        toks[i + 5] == TokenView::NumericLiteral(v),
        !(-16 <= v <= 15),
    ensures
        encode_alu(toks, i, op) == fail::<EncodedView>(AsmErrorKind::OutOfRange(5), i + 5),
{
}

/// The offset from the cell after `addr` to `target`, as a signed word.
pub open spec fn pc_offset(target: int, addr: int) -> int {
    word_of(target - addr - 1)
}

/// `mem` with every pending reference patched, in order.
pub open spec fn resolve(
    mem: Seq<i16>,
    symbols: Seq<(Seq<char>, int)>,
    pending: Seq<PendingView>,
) -> Result<Seq<i16>, AsmError>
    decreases pending.len(),
{
    if pending.len() == 0 {
        Ok(mem)
    } else {
        let p = pending[0];
        match lookup(symbols, p.label) {
            None => fail(AsmErrorKind::UnresolvedLabel, p.token),
            Some(t) => {
                let off = pc_offset(t, p.addr);
                if fits(off, p.width) {
                    resolve(
                        mem.update(p.addr, word_of(mem[p.addr] as int + field(off, p.width)) as i16),
                        symbols,
                        pending.drop_first(),
                    )
                } else {
                    fail(AsmErrorKind::OutOfRange(p.width as u16), p.token)
                }
            },
        }
    }
}

/// The assembler before the first token: outside any block, memory all
/// zero.
pub open spec fn initial_state() -> AsmState {
    AsmState {
        pos: 0,
        addr: None,
        mem: Seq::new(0x10000, |a: int| 0i16),
        symbols: Seq::empty(),
        pending: Seq::empty(),
    }
}

/// The memory image that the tokens `toks` assemble to, or the first error.
pub open spec fn assemble(toks: Seq<TokenView>) -> Result<Seq<i16>, AsmError> {
    match place(toks, initial_state()) {
        Ok(st) => resolve(st.mem, st.symbols, st.pending),
        Err(e) => Err(e),
    }
}

/// A PC-relative or base-relative offset operand, as read.
pub enum Offset {
    Field(u16),
    Reference(Vec<char>),
}

impl View for Offset {
    type V = OffsetView;

    open spec fn view(&self) -> OffsetView {
        match self {
            Offset::Field(f) => OffsetView::Field(*f as int),
            Offset::Reference(l) => OffsetView::Reference(l@),
        }
    }
}

/// One encoded instruction cell, as produced.
pub struct Encoded {
    pub word: u16,
    pub next: usize,
    pub reference: Option<(Vec<char>, u16, usize)>,
}

impl View for Encoded {
    type V = EncodedView;

    open spec fn view(&self) -> EncodedView {
        EncodedView {
            word: self.word as int,
            next: self.next as int,
            reference: match self.reference {
                Some((l, w, j)) => Some((l@, w as int, j as int)),
                None => None,
            },
        }
    }
}

pub fn err<T>(kind: AsmErrorKind, token: usize) -> (r: Result<T, AsmError>)
    ensures
        r == fail::<T>(kind, token as int),
{
    Err(AsmError { kind, token })
}

/// A copy of the characters of `v`.
pub fn copy_chars(v: &[char]) -> (r: Vec<char>)
    ensures
        r@ == v@,
{
    let mut r: Vec<char> = Vec::new();
    let mut k: usize = 0;
    while k < v.len()
        invariant
            k <= v@.len(),
            r@ == v@.subrange(0, k as int),
        decreases v@.len() - k,
    {
        r.push(v[k]);
        k = k + 1;
        assert(r@ =~= v@.subrange(0, k as int));
    }
    assert(r@ =~= v@);
    r
}

/// The register operand `d` tokens after token `i`.
fn read_register(toks: &Vec<Token>, i: usize, d: usize) -> (r: Result<u16, AsmError>)
    requires
        i < toks@.len(),
    ensures
        r == operand_register(token_views(toks@), i + d),
{
    if d >= toks.len() - i {
        return err(AsmErrorKind::MissingOperand, toks.len());
    }
    let j = i + d;
    match &toks[j] {
        Token::Register(n) => if *n <= 7 {
            Ok(*n)
        } else {
            err(AsmErrorKind::RegisterOutOfRange, j)
        },
        _ => err(AsmErrorKind::ExpectedRegister, j),
    }
}

/// The comma `d` tokens after token `i`.
fn read_comma(toks: &Vec<Token>, i: usize, d: usize) -> (r: Result<(), AsmError>)
    requires
        i < toks@.len(),
    ensures
        r == operand_comma(token_views(toks@), i + d),
{
    if d >= toks.len() - i {
        return err(AsmErrorKind::MissingOperand, toks.len());
    }
    let j = i + d;
    match &toks[j] {
        Token::Comma => Ok(()),
        _ => err(AsmErrorKind::ExpectedComma, j),
    }
}

/// The numeric literal `d` tokens after token `i`.
fn read_number(toks: &Vec<Token>, i: usize, d: usize) -> (r: Result<i16, AsmError>)
    requires
        i < toks@.len(),
    ensures
        r == operand_number(token_views(toks@), i + d),
{
    if d >= toks.len() - i {
        return err(AsmErrorKind::MissingOperand, toks.len());
    }
    let j = i + d;
    match &toks[j] {
        Token::NumericLiteral(v) => Ok(*v),
        _ => err(AsmErrorKind::ExpectedNumber, j),
    }
}

/// The string literal `d` tokens after token `i`.
fn read_string(toks: &Vec<Token>, i: usize, d: usize) -> (r: Result<Vec<char>, AsmError>)
    requires
        i < toks@.len(),
    ensures
        match operand_string(token_views(toks@), i + d) {
            Ok(t) => r matches Ok(v) && v@ == t,
            Err(e) => r == Err::<Vec<char>, AsmError>(e),
        },
{
    if d >= toks.len() - i {
        return err(AsmErrorKind::MissingOperand, toks.len());
    }
    let j = i + d;
    match &toks[j] {
        Token::StringLiteral(t) => Ok(copy_chars(t.as_slice())),
        _ => err(AsmErrorKind::ExpectedString, j),
    }
}

/// Whether `v` fits a signed field of `width` bits.
fn fits_field(v: i16, width: u16) -> (r: bool)
    requires
        1 <= width <= 16,
    ensures
        r == fits(v as int, width as int),
{
    let h = pow2_u32((width - 1) as u32);
    proof {
        lemma2_to64();
        if width - 1 < 15 {
            lemma_pow2_strictly_increases((width - 1) as nat, 15);
        }
    }
    let half = h as i32;
    -half <= v as i32 && (v as i32) < half
}

/// The offset operand of `width` bits, `d` tokens after token `i`.
fn read_offset(toks: &Vec<Token>, i: usize, d: usize, width: u16) -> (r: Result<Offset, AsmError>)
    requires
        i < toks@.len(),
        1 <= width <= 16,
    ensures
        match operand_offset(token_views(toks@), i + d, width as int) {
            Ok(o) => r matches Ok(x) && x@ == o,
            Err(e) => r == Err::<Offset, AsmError>(e),
        },
{
    if d >= toks.len() - i {
        return err(AsmErrorKind::MissingOperand, toks.len());
    }
    let j = i + d;
    match &toks[j] {
        Token::NumericLiteral(v) => if fits_field(*v, width) {
            Ok(Offset::Field(last_n_bits(*v, width)))
        } else {
            err(AsmErrorKind::OutOfRange(width), j)
        },
        Token::Label(l) => Ok(Offset::Reference(copy_chars(l.as_slice()))),
        Token::Op(_) => err(AsmErrorKind::KeywordAsLabel, j),
        _ => err(AsmErrorKind::ExpectedOperand, j),
    }
}

/// An instruction whose last operand, an offset, sits at token `j`.
fn finish_with_offset(base: u16, next: usize, o: Offset, width: u16, j: usize) -> (r: Encoded)
    requires
        o matches Offset::Field(f) ==> base as int + f as int <= 0xffff,
    ensures
        r@ == with_offset(base as int, next as int, o@, width as int, j as int),
{
    match o {
        Offset::Field(f) => Encoded { word: base + f, next, reference: None },
        Offset::Reference(l) => Encoded { word: base, next, reference: Some((l, width, j)) },
    }
}

/// ADD or AND (`op`) with its operands after token `i`.
fn assemble_alu(toks: &Vec<Token>, i: usize, op: u16) -> (r: Result<Encoded, AsmError>)
    requires
        i < toks@.len(),
        op <= 15,
    ensures
        match encode_alu(token_views(toks@), i as int, op as int) {
            Ok(e) => r matches Ok(x) && x@ == e,
            Err(e) => r == Err::<Encoded, AsmError>(e),
        },
{
    let dr = read_register(toks, i, 1)?;
    read_comma(toks, i, 2)?;
    let sr1 = read_register(toks, i, 3)?;
    read_comma(toks, i, 4)?;
    let base: u16 = op * 0x1000 + dr * 0x200 + sr1 * 0x40;
    if 5 >= toks.len() - i {
        return err(AsmErrorKind::MissingOperand, toks.len());
    }
    let j = i + 5;
    proof {
        lemma2_to64();
    }
    match &toks[j] {
        Token::Register(n) => if *n <= 7 {
            Ok(Encoded { word: base + *n, next: j + 1, reference: None })
        } else {
            err(AsmErrorKind::RegisterOutOfRange, j)
        },
        Token::NumericLiteral(v) => if -16 <= *v && *v <= 15 {
            let f = last_n_bits(*v, 5);
            Ok(Encoded { word: base + 0x20 + f, next: j + 1, reference: None })
        } else {
            err(AsmErrorKind::OutOfRange(5), j)
        },
        _ => err(AsmErrorKind::ExpectedOperand, j),
    }
}

/// NOT with its operands after token `i`.
fn assemble_not(toks: &Vec<Token>, i: usize) -> (r: Result<Encoded, AsmError>)
    requires
        i < toks@.len(),
    ensures
        match encode_not(token_views(toks@), i as int) {
            Ok(e) => r matches Ok(x) && x@ == e,
            Err(e) => r == Err::<Encoded, AsmError>(e),
        },
{
    // Token indices past `i` stay below the length, which fits a `usize`.
    let _len = toks.len();
    let dr = read_register(toks, i, 1)?;
    read_comma(toks, i, 2)?;
    let sr = read_register(toks, i, 3)?;
    Ok(Encoded { word: 0x9000 + dr * 0x200 + sr * 0x40 + 0x3f, next: i + 4, reference: None })
}

/// JMP or JSRR (`op`): one base register after token `i`.
fn assemble_base_register(toks: &Vec<Token>, i: usize, op: u16) -> (r: Result<Encoded, AsmError>)
    requires
        i < toks@.len(),
        op <= 15,
    ensures
        match encode_base_register(token_views(toks@), i as int, op as int) {
            Ok(e) => r matches Ok(x) && x@ == e,
            Err(e) => r == Err::<Encoded, AsmError>(e),
        },
{
    // Token indices past `i` stay below the length, which fits a `usize`.
    let _len = toks.len();
    let b = read_register(toks, i, 1)?;
    Ok(Encoded { word: op * 0x1000 + b * 0x40, next: i + 2, reference: None })
}

/// LD, LDI, LEA, ST or STI (`op`): a register and a 9-bit offset.
fn assemble_pc_relative(toks: &Vec<Token>, i: usize, op: u16) -> (r: Result<Encoded, AsmError>)
    requires
        i < toks@.len(),
        op <= 15,
    ensures
        match encode_pc_relative(token_views(toks@), i as int, op as int) {
            Ok(e) => r matches Ok(x) && x@ == e,
            Err(e) => r == Err::<Encoded, AsmError>(e),
        },
{
    // Token indices past `i` stay below the length, which fits a `usize`.
    let _len = toks.len();
    let reg = read_register(toks, i, 1)?;
    read_comma(toks, i, 2)?;
    let o = read_offset(toks, i, 3, 9)?;
    proof {
        lemma2_to64();
    }
    Ok(finish_with_offset(op * 0x1000 + reg * 0x200, i + 4, o, 9, i + 3))
}

/// LDR or STR (`op`): two registers and a 6-bit offset.
fn assemble_base_offset(toks: &Vec<Token>, i: usize, op: u16) -> (r: Result<Encoded, AsmError>)
    requires
        i < toks@.len(),
        op <= 15,
    ensures
        match encode_base_offset(token_views(toks@), i as int, op as int) {
            Ok(e) => r matches Ok(x) && x@ == e,
            Err(e) => r == Err::<Encoded, AsmError>(e),
        },
{
    // Token indices past `i` stay below the length, which fits a `usize`.
    let _len = toks.len();
    let reg = read_register(toks, i, 1)?;
    read_comma(toks, i, 2)?;
    let b = read_register(toks, i, 3)?;
    read_comma(toks, i, 4)?;
    let o = read_offset(toks, i, 5, 6)?;
    proof {
        lemma2_to64();
    }
    Ok(finish_with_offset(op * 0x1000 + reg * 0x200 + b * 0x40, i + 6, o, 6, i + 5))
}

/// The one-cell instruction `k` at token `i`.
fn assemble_instruction(toks: &Vec<Token>, i: usize, k: Keyword) -> (r: Result<Encoded, AsmError>)
    requires
        i < toks@.len(),
    ensures
        match encode(token_views(toks@), i as int, k) {
            Ok(e) => r matches Ok(x) && x@ == e,
            Err(e) => r == Err::<Encoded, AsmError>(e),
        },
{
    // Token indices past `i` stay below the length, which fits a `usize`.
    let _len = toks.len();
    proof {
        lemma2_to64();
    }
    match k {
        Keyword::Add => assemble_alu(toks, i, 0b0001),
        Keyword::And => assemble_alu(toks, i, 0b0101),
        Keyword::Not => assemble_not(toks, i),
        Keyword::Br(nzp) => {
            let o = read_offset(toks, i, 1, 9)?;
            Ok(finish_with_offset((nzp % 8) * 0x200, i + 2, o, 9, i + 1))
        },
        Keyword::Jmp => assemble_base_register(toks, i, 0b1100),
        Keyword::Jsr => {
            let o = read_offset(toks, i, 1, 11)?;
            Ok(finish_with_offset(0x4800, i + 2, o, 11, i + 1))
        },
        Keyword::Jsrr => assemble_base_register(toks, i, 0b0100),
        Keyword::Ldr => assemble_base_offset(toks, i, 0b0110),
        Keyword::Str => assemble_base_offset(toks, i, 0b0111),
        Keyword::Ld => assemble_pc_relative(toks, i, 0b0010),
        Keyword::Ldi => assemble_pc_relative(toks, i, 0b1010),
        Keyword::Lea => assemble_pc_relative(toks, i, 0b1110),
        Keyword::St => assemble_pc_relative(toks, i, 0b0011),
        Keyword::Sti => assemble_pc_relative(toks, i, 0b1011),
        Keyword::Getc => Ok(Encoded { word: 0xf020, next: i + 1, reference: None }),
        Keyword::Out => Ok(Encoded { word: 0xf021, next: i + 1, reference: None }),
        Keyword::Puts => Ok(Encoded { word: 0xf022, next: i + 1, reference: None }),
        Keyword::In => Ok(Encoded { word: 0xf023, next: i + 1, reference: None }),
        Keyword::Halt => Ok(Encoded { word: 0xf025, next: i + 1, reference: None }),
        _ => err(AsmErrorKind::UnexpectedToken, i),
    }
}

/// A label and the address it is bound to.
pub struct Symbol {
    pub name: Vec<char>,
    pub addr: u16,
}

/// A label reference waiting for its label.
pub struct PendingRef {
    pub addr: u16,
    pub label: Vec<char>,
    pub width: u16,
    pub token: usize,
}

pub open spec fn symbols_view(v: Seq<Symbol>) -> Seq<(Seq<char>, int)> {
    v.map_values(|s: Symbol| (s.name@, s.addr as int))
}

pub open spec fn pending_view(v: Seq<PendingRef>) -> Seq<PendingView> {
    v.map_values(
        |p: PendingRef|
            PendingView {
                addr: p.addr as int,
                label: p.label@,
                width: p.width as int,
                token: p.token as int,
            },
    )
}

/// The assembler's working state between two statements.
pub struct Placement {
    pub pos: usize,
    pub addr: Option<u16>,
    pub mem: Vec<i16>,
    pub symbols: Vec<Symbol>,
    pub pending: Vec<PendingRef>,
}

impl View for Placement {
    type V = AsmState;

    open spec fn view(&self) -> AsmState {
        AsmState {
            pos: self.pos as int,
            addr: match self.addr {
                Some(a) => Some(a as int),
                None => None,
            },
            mem: self.mem@,
            symbols: symbols_view(self.symbols@),
            pending: pending_view(self.pending@),
        }
    }
}

/// Whether `a` and `b` hold the same characters.
pub fn same_chars(a: &[char], b: &[char]) -> (r: bool)
    ensures
        r == (a@ == b@),
{
    if a.len() != b.len() {
        return false;
    }
    let mut k: usize = 0;
    while k < a.len()
        invariant
            a@.len() == b@.len(),
            k <= a@.len(),
            forall|m: int| 0 <= m < k ==> a@[m] == b@[m],
        decreases a@.len() - k,
    {
        if a[k] != b[k] {
            return false;
        }
        k = k + 1;
    }
    assert(a@ =~= b@);
    true
}

/// The address bound to `name` in `symbols`, if any.
pub fn find_symbol(symbols: &Vec<Symbol>, name: &[char]) -> (r: Option<u16>)
    ensures
        match lookup(symbols_view(symbols@), name@) {
            Some(a) => r matches Some(x) && x as int == a,
            None => r is None,
        },
{
    let ghost all = symbols_view(symbols@);
    assert(all.subrange(0, all.len() as int) =~= all);
    let mut k: usize = 0;
    while k < symbols.len()
        invariant
            k <= symbols@.len(),
            all == symbols_view(symbols@),
            lookup(all, name@) == lookup(all.subrange(k as int, all.len() as int), name@),
        decreases symbols@.len() - k,
    {
        let ghost rest = all.subrange(k as int, all.len() as int);
        if same_chars(symbols[k].name.as_slice(), name) {
            return Some(symbols[k].addr);
        }
        assert(rest.drop_first() =~= all.subrange(k + 1, all.len() as int));
        k = k + 1;
    }
    None
}

/// The address `n` cells after `a`, wrapping round the 16-bit space.
pub fn advance(a: u16, n: u16) -> (r: u16)
    ensures
        r as int == next_addr(a as int, n as int),
{
    ((a as u32 + n as u32) % 0x10000) as u16
}

/// The word holding the character `c`.
pub fn char_to_word(c: char) -> (r: i16)
    ensures
        r == char_word(c),
{
    let u = ((c as u32) % 0x10000) as u16;
    proof {
        lemma_u16_as_i16(u);
    }
    #[verifier::truncate]
    (u as i16)
}

/// A memory image with every word zero.
pub fn blank_memory() -> (r: Vec<i16>)
    ensures
        r@ == Seq::new(0x10000, |a: int| 0i16),
{
    let mut r: Vec<i16> = Vec::new();
    let mut k: usize = 0;
    while k < 0x10000
        invariant
            k <= 0x10000,
            r@ =~= Seq::new(k as nat, |a: int| 0i16),
        decreases 0x10000 - k,
    {
        r.push(0);
        k = k + 1;
    }
    r
}

/// Writes the characters of `t` from address `a` on, then a terminating
/// zero, and returns the address after the zero.
fn write_chars(mem: &mut Vec<i16>, a: u16, t: &Vec<char>) -> (end: u16)
    requires
        old(mem)@.len() == 0x10000,
    ensures
        final(mem)@ == write_string(old(mem)@, a as int, t@),
        final(mem)@.len() == 0x10000,
        end as int == next_addr(a as int, t@.len() as int + 1),
{
    let mut cur = a;
    let mut k: usize = 0;
    assert(t@.subrange(0, t@.len() as int) =~= t@);
    while k < t.len()
        invariant
            mem@.len() == 0x10000,
            k <= t@.len(),
            cur as int == next_addr(a as int, k as int),
            write_string(old(mem)@, a as int, t@) == write_string(
                mem@,
                cur as int,
                t@.subrange(k as int, t@.len() as int),
            ),
        decreases t@.len() - k,
    {
        proof {
            assert(t@.subrange(k as int, t@.len() as int).drop_first() =~= t@.subrange(
                k + 1,
                t@.len() as int,
            ));
            lemma_add_mod_noop(a + k, 1, 0x10000);
        }
        mem.set(cur as usize, char_to_word(t[k]));
        cur = advance(cur, 1);
        k = k + 1;
    }
    assert(t@.subrange(k as int, t@.len() as int) =~= Seq::<char>::empty());
    mem.set(cur as usize, 0);
    proof {
        lemma_add_mod_noop(a + k, 1, 0x10000);
    }
    advance(cur, 1)
}

/// The signed offset from the cell after `addr` to `target`.
fn offset_between(target: u16, addr: u16) -> (r: i16)
    ensures
        r as int == pc_offset(target as int, addr as int),
{
    let d: i32 = target as i32 - addr as i32 - 1;
    if d < -32768 {
        (d + 65536) as i16
    } else if d > 32767 {
        (d - 65536) as i16
    } else {
        d as i16
    }
}

/// Patches every pending reference, in order.
fn resolve_pending(mem: &mut Vec<i16>, symbols: &Vec<Symbol>, pending: &Vec<PendingRef>) -> (r:
    Result<(), AsmError>)
    requires
        old(mem)@.len() == 0x10000,
        forall|k: int| 0 <= k < pending@.len() ==> 1 <= #[trigger] pending@[k].width <= 16,
    ensures
        match resolve(old(mem)@, symbols_view(symbols@), pending_view(pending@)) {
            Ok(m) => r is Ok && final(mem)@ == m,
            Err(e) => r == Err::<(), AsmError>(e),
        },
{
    let ghost syms = symbols_view(symbols@);
    let ghost pv = pending_view(pending@);
    assert(pv.subrange(0, pv.len() as int) =~= pv);
    let mut k: usize = 0;
    while k < pending.len()
        invariant
            mem@.len() == 0x10000,
            k <= pending@.len(),
            syms == symbols_view(symbols@),
            pv == pending_view(pending@),
            forall|m: int| 0 <= m < pending@.len() ==> 1 <= #[trigger] pending@[m].width <= 16,
            resolve(old(mem)@, syms, pv) == resolve(mem@, syms, pv.subrange(k as int, pv.len() as int)),
        decreases pending@.len() - k,
    {
        let ghost rest = pv.subrange(k as int, pv.len() as int);
        assert(rest.drop_first() =~= pv.subrange(k + 1, pv.len() as int));
        assert(rest[0] == pv[k as int]);
        let p = &pending[k];
        let target = match find_symbol(symbols, p.label.as_slice()) {
            Some(t) => t,
            None => {
                return err(AsmErrorKind::UnresolvedLabel, p.token);
            },
        };
        let off = offset_between(target, p.addr);
        if !fits_field(off, p.width) {
            return err(AsmErrorKind::OutOfRange(p.width), p.token);
        }
        let f = last_n_bits(off, p.width);
        let before = mem[p.addr as usize];
        let sum = ((unsext(before) as u32 + f as u32) % 0x10000) as u16;
        proof {
            lemma2_to64();
            if p.width < 16 {
                lemma_pow2_strictly_increases(p.width as nat, 16);
            }
            lemma_add_mod_noop(before as int, f as int, 0x10000);
            lemma_u16_as_i16(sum);
        }
        mem.set(p.addr as usize, #[verifier::truncate] (sum as i16));
        k = k + 1;
    }
    assert(pv.subrange(k as int, pv.len() as int) =~= Seq::<PendingView>::empty());
    Ok(())
}

impl Placement {
    pub open spec fn wf(&self) -> bool {
        &&& self.mem@.len() == 0x10000
        &&& forall|k: int|
            0 <= k < self.pending@.len() ==> 1 <= #[trigger] self.pending@[k].width <= 16
        &&& labels_unique(symbols_view(self.symbols@))
    }

    /// Assembles the statement at the next token.
    pub fn step(&mut self, toks: &Vec<Token>) -> (r: Result<(), AsmError>)
        requires
            old(self).wf(),
            old(self).pos < toks@.len(),
        ensures
            match step(token_views(toks@), old(self)@) {
                Ok(n) => r is Ok && final(self).wf() && final(self)@ == n,
                Err(e) => r == Err::<(), AsmError>(e),
            },
    {
        let i = self.pos;
        // Token indices past `i` stay below the length, which fits a `usize`.
        let _len = toks.len();
        match self.addr {
            None => match &toks[i] {
                Token::Newline => {
                    self.pos = i + 1;
                    Ok(())
                },
                Token::Op(Keyword::Orig) => {
                    let v = read_number(toks, i, 1)?;
                    self.addr = Some(unsext(v));
                    self.pos = i + 2;
                    Ok(())
                },
                Token::Op(Keyword::End) => err(AsmErrorKind::EndWithoutOrig, i),
                _ => err(AsmErrorKind::OutsideOrig, i),
            },
            Some(a) => match &toks[i] {
                Token::Newline => {
                    self.pos = i + 1;
                    Ok(())
                },
                Token::Label(l) => {
                    if find_symbol(&self.symbols, l.as_slice()).is_some() {
                        return err(AsmErrorKind::DuplicateLabel, i);
                    }
                    proof {
                        lemma_lookup_none(old(self)@.symbols, l@);
                    }
                    self.symbols.push(Symbol { name: copy_chars(l.as_slice()), addr: a });
                    assert(symbols_view(self.symbols@) =~= old(self)@.symbols.push((l@, a as int)));
                    self.pos = i + 1;
                    Ok(())
                },
                Token::Op(Keyword::Orig) => err(AsmErrorKind::NestedOrig, i),
                Token::Op(Keyword::End) => {
                    self.addr = None;
                    self.pos = i + 1;
                    Ok(())
                },
                Token::Op(Keyword::Fill) => {
                    let v = read_number(toks, i, 1)?;
                    self.mem.set(a as usize, v);
                    self.addr = Some(advance(a, 1));
                    self.pos = i + 2;
                    Ok(())
                },
                Token::Op(Keyword::Blkw) => {
                    let v = read_number(toks, i, 1)?;
                    self.addr = Some(advance(a, unsext(v)));
                    self.pos = i + 2;
                    Ok(())
                },
                Token::Op(Keyword::Stringz) => {
                    let t = read_string(toks, i, 1)?;
                    let end = write_chars(&mut self.mem, a, &t);
                    self.addr = Some(end);
                    self.pos = i + 2;
                    Ok(())
                },
                Token::Op(k) => {
                    let e = assemble_instruction(toks, i, *k)?;
                    proof {
                        lemma_u16_as_i16(e.word);
                        lemma_encode_width(token_views(toks@), i as int, *k);
                    }
                    self.mem.set(a as usize, #[verifier::truncate] (e.word as i16));
                    match e.reference {
                        Some((l, w, j)) => {
                            let ghost before = self.pending@;
                            self.pending.push(PendingRef { addr: a, label: l, width: w, token: j });
                            assert(pending_view(self.pending@) =~= pending_view(before).push(
                                PendingView { addr: a as int, label: l@, width: w as int, token: j as int },
                            ));
                        },
                        None => {},
                    }
                    self.addr = Some(advance(a, 1));
                    self.pos = e.next;
                    Ok(())
                },
                _ => err(AsmErrorKind::UnexpectedToken, i),
            },
        }
    }
}

/// Assembles a token sequence into a full memory image.
pub fn assemble_tokens(toks: &Vec<Token>) -> (r: Result<Vec<i16>, AsmError>)
    ensures
        match assemble(token_views(toks@)) {
            Ok(m) => r matches Ok(v) && v@ == m,
            Err(e) => r == Err::<Vec<i16>, AsmError>(e),
        },
{
    let ghost views = token_views(toks@);
    let mut st = Placement {
        pos: 0,
        addr: None,
        mem: blank_memory(),
        symbols: Vec::new(),
        pending: Vec::new(),
    };
    assert(st@.symbols =~= initial_state().symbols);
    assert(st@.pending =~= initial_state().pending);
    assert(st@ == initial_state());
    while st.pos < toks.len()
        invariant
            st.wf(),
            views == token_views(toks@),
            place(views, initial_state()) == place(views, st@),
        decreases toks@.len() - st.pos,
    {
        proof {
            lemma_step_advances(views, st@);
        }
        st.step(toks)?;
    }
    resolve_pending(&mut st.mem, &st.symbols, &st.pending)?;
    Ok(st.mem)
}

impl ParserState {
    /// Assembles the tokens read so far into a full memory image.
    pub fn generate_bin_from_asm(&self) -> (r: Result<Vec<i16>, AsmError>)
        ensures
            match assemble(self.tokens()) {
                Ok(m) => r matches Ok(v) && v@ == m,
                Err(e) => r == Err::<Vec<i16>, AsmError>(e),
            },
    {
        assemble_tokens(&self.parsed_tokens)
    }
}

/// A failure to turn source text into a memory image.
#[derive(Clone, Copy, PartialEq, Eq, Structural, Debug)]
pub enum SourceError {
    Lex(LexError),
    Asm(AsmError),
}

/// A source failure without the line it was met on.
pub enum SourceFault {
    Lex(LexErrorKind, int, int),
    Asm(AsmError),
}

impl View for SourceError {
    type V = SourceFault;

    open spec fn view(&self) -> SourceFault {
        match self {
            SourceError::Lex(e) => SourceFault::Lex(e.kind, e.start as int, e.end as int),
            SourceError::Asm(e) => SourceFault::Asm(*e),
        }
    }
}

/// The memory image that the (lower-case) source `s` assembles to, or the
/// first failure.
pub open spec fn source_image(s: Seq<char>) -> Result<Seq<i16>, SourceFault> {
    match lex_from(s, 0) {
        Err((k, a, b)) => Err(SourceFault::Lex(k, a, b)),
        Ok(ts) => match assemble(ts) {
            Ok(m) => Ok(m),
            Err(e) => Err(SourceFault::Asm(e)),
        },
    }
}

/// Tokenizes and assembles the characters of a lower-case source.
pub fn assemble_source(characters: Vec<char>) -> (r: Result<Vec<i16>, SourceError>)
    ensures
        match source_image(characters@) {
            Ok(m) => r matches Ok(v) && v@ == m,
            Err(f) => r matches Err(e) && e@ == f,
        },
{
    let mut state = ParserState::from_chars(characters);
    match state.tokenize() {
        Ok(()) => {},
        Err(e) => {
            return Err(SourceError::Lex(e));
        },
    }
    assert(Seq::<TokenView>::empty() + state.tokens() =~= state.tokens());
    match state.generate_bin_from_asm() {
        Ok(m) => Ok(m),
        Err(e) => Err(SourceError::Asm(e)),
    }
}

/// Assembles source text, read without regard to case, into a full memory
/// image.
pub fn parse_asm(source: &str) -> (r: Result<Vec<i16>, SourceError>)
    ensures
        match source_image(lower_of(source@)) {
            Ok(m) => r matches Ok(v) && v@ == m,
            Err(f) => r matches Err(e) && e@ == f,
        },
{
    let state = ParserState::new(source);
    assemble_source(state.characters)
}

/// Assembly is a function of the source: the same text always gives the
/// same image, or the same failure.
pub proof fn lemma_assembly_deterministic(a: Seq<char>, b: Seq<char>)
    requires
        a == b,
    ensures
        source_image(lower_of(a)) == source_image(lower_of(b)),
{
}

} // verus!
