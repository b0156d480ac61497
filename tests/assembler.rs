use lc3sim::assembler::{parse_asm, AsmError, AsmErrorKind, SourceError};
use lc3sim::lexer::LexErrorKind;

fn image(src: &str) -> Vec<i16> {
    match parse_asm(src) {
        Ok(m) => m,
        Err(e) => panic!("assembly failed: {:?}", e),
    }
}

fn asm_error(src: &str) -> AsmError {
    match parse_asm(src) {
        Err(SourceError::Asm(e)) => e,
        other => panic!("expected an assembly error, got {:?}", other.map(|m| m.len())),
    }
}

#[test]
fn add_registers_encoding() {
    let m = image(".orig x3000\nadd r0,r1,r2\n.end");
    assert_eq!(m.len(), 65536);
    assert_eq!(m[0x3000] as u16, 0b0001_000_001_0_00_010);
}

#[test]
fn and_immediate_encoding() {
    let m = image(".orig x3000\nand r3,r3,x5\n.end");
    let w = m[0x3000] as u16;
    assert_eq!(w >> 5 & 1, 1);
    assert_eq!(w & 0b11111, 0b00101);
    assert_eq!(w, 0b0101_011_011_1_00101);
}

#[test]
fn forward_reference_resolves() {
    // The offset counts from the cell after the branch, so a target right
    // after it is offset 0 and a target one word further is offset 1.
    let m = image(".orig x3000\nbr target\ntarget: halt\n.end");
    assert_eq!(m[0x3000] as u16, 0x0e00);
    assert_eq!(m[0x3001] as u16, 0xf025);
    let m = image(".orig x3000\nbr target\nadd r0, r0, r0\ntarget: halt\n.end");
    let w = m[0x3000] as u16;
    assert_eq!(w & 0x1ff, 1);
    assert_eq!(w, 0x0e01);
    assert_eq!(m[0x3002] as u16, 0xf025);
}

#[test]
fn backward_reference_is_negative() {
    let m = image(".orig x3000\nloop add r0, r0, 1\nbrp loop\n.end");
    assert_eq!(m[0x3001] as u16, 0b0000_001_111111110);
}

#[test]
fn immediate_out_of_range() {
    let e = asm_error(".orig x3000\nadd r0,r0,x1F\n.end");
    assert_eq!(e.kind, AsmErrorKind::OutOfRange(5));
    assert_eq!(e.token, 8);
}

#[test]
fn immediate_bounds_accepted() {
    let m = image(".orig x3000\nadd r0, r0, -16\nadd r0, r0, 15\n.end");
    assert_eq!(m[0x3000] as u16, 0b0001_000_000_1_10000);
    assert_eq!(m[0x3001] as u16, 0b0001_000_000_1_01111);
}

#[test]
fn stringz_writes_codes_and_terminator() {
    let m = image(".orig x3000\n.stringz \"ab\"\nhalt\n.end");
    assert_eq!(m[0x3000], 'a' as i16);
    assert_eq!(m[0x3001], 'b' as i16);
    assert_eq!(m[0x3002], 0);
    assert_eq!(m[0x3003] as u16, 0xf025);
}

#[test]
fn nested_orig_rejected() {
    let e = asm_error(".orig x3000\n.orig x4000\n.end");
    assert_eq!(e.kind, AsmErrorKind::NestedOrig);
    assert_eq!(e.token, 3);
}

#[test]
fn end_without_orig_rejected() {
    let e = asm_error(".end");
    assert_eq!(e, AsmError { kind: AsmErrorKind::EndWithoutOrig, token: 0 });
}

#[test]
fn instruction_outside_block_rejected() {
    let e = asm_error("add r0, r0, r0");
    assert_eq!(e.kind, AsmErrorKind::OutsideOrig);
}

#[test]
fn assembling_twice_is_identical() {
    let src = ".orig x3000\nlea r0, msg\nputs\nhalt\nmsg .stringz \"hi\"\n.end";
    assert_eq!(image(src), image(src));
}

#[test]
fn fill_blkw_and_labels() {
    let m = image(".ORIG x3000\nld r1, value\n.blkw 2\nvalue .fill xFFFF\n.END");
    assert_eq!(m[0x3003] as u16, 0xffff);
    assert_eq!(m[0x3000] as u16, 0b0010_001_000000010);
}

#[test]
fn fill_hex_and_negative_decimal() {
    let m = image(".orig x3000\n.fill xBEEF\n.fill -2\n.fill 40000\n.end");
    assert_eq!(m[0x3000] as u16, 0xbeef);
    assert_eq!(m[0x3001], -2);
    assert_eq!(m[0x3002] as u16, 40000);
}

#[test]
fn unresolved_label_rejected() {
    let e = asm_error(".orig x3000\nbr nowhere\n.end");
    assert_eq!(e.kind, AsmErrorKind::UnresolvedLabel);
    assert_eq!(e.token, 4);
}

#[test]
fn keyword_as_label_rejected() {
    let e = asm_error(".orig x3000\njsr add\n.end");
    assert_eq!(e.kind, AsmErrorKind::KeywordAsLabel);
}

#[test]
fn duplicate_label_rejected() {
    let e = asm_error(".orig x3000\nhere halt\nhere halt\n.end");
    assert_eq!(e.kind, AsmErrorKind::DuplicateLabel);
}

#[test]
fn missing_operand_rejected() {
    let e = asm_error(".orig x3000\nadd r0, r1,");
    assert_eq!(e.kind, AsmErrorKind::MissingOperand);
    assert_eq!(e.token, 8);
}

#[test]
fn missing_comma_rejected() {
    let e = asm_error(".orig x3000\nnot r0 r1\n.end");
    assert_eq!(e.kind, AsmErrorKind::ExpectedComma);
}

#[test]
fn offset_out_of_range_rejected() {
    let e = asm_error(".orig x3000\nldr r0, r1, 32\n.end");
    assert_eq!(e.kind, AsmErrorKind::OutOfRange(6));
    let e = asm_error(".orig x3000\nld r0, 256\n.end");
    assert_eq!(e.kind, AsmErrorKind::OutOfRange(9));
    let e = asm_error(".orig x3000\njsr 1024\n.end");
    assert_eq!(e.kind, AsmErrorKind::OutOfRange(11));
}

#[test]
fn full_instruction_set_encodings() {
    let src = ".orig x3000\n\
               not r1, r2\n\
               jmp r3\n\
               jsr -1\n\
               jsrr r4\n\
               ldi r5, 3\n\
               ldr r6, r7, -1\n\
               lea r0, 4\n\
               st r1, -2\n\
               sti r2, 1\n\
               str r3, r4, 5\n\
               getc\nout\nputs\nin\nhalt\n\
               brnz -256\n\
               .end";
    let m = image(src);
    let w: Vec<u16> = m[0x3000..0x3010].iter().map(|x| *x as u16).collect();
    assert_eq!(w[0], 0b1001_001_010_111111);
    assert_eq!(w[1], 0b1100_000_011_000000);
    assert_eq!(w[2], 0b0100_1_11111111111);
    assert_eq!(w[3], 0b0100_0_00_100_000000);
    assert_eq!(w[4], 0b1010_101_000000011);
    assert_eq!(w[5], 0b0110_110_111_111111);
    assert_eq!(w[6], 0b1110_000_000000100);
    assert_eq!(w[7], 0b0011_001_111111110);
    assert_eq!(w[8], 0b1011_010_000000001);
    assert_eq!(w[9], 0b0111_011_100_000101);
    assert_eq!(&w[10..15], &[0xf020, 0xf021, 0xf022, 0xf023, 0xf025]);
    assert_eq!(w[15], 0b0000_110_100000000);
}

#[test]
fn lex_error_unterminated_string() {
    match parse_asm(".orig x3000\n.stringz \"abc\n") {
        Err(SourceError::Lex(e)) => {
            assert_eq!(e.kind, LexErrorKind::UnterminatedString);
            assert_eq!(e.start, 21);
            assert_eq!(e.line, 2);
        }
        other => panic!("expected a lex error, got {:?}", other.map(|m| m.len())),
    }
}

#[test]
fn lex_error_register_out_of_range() {
    match parse_asm(".orig x3000\nadd r8, r0, r0") {
        Err(SourceError::Lex(e)) => assert_eq!(e.kind, LexErrorKind::MalformedRegister),
        other => panic!("expected a lex error, got {:?}", other.map(|m| m.len())),
    }
}

#[test]
fn lex_error_malformed_number() {
    match parse_asm(".orig x3000\n.fill 12ab\n.end") {
        Err(SourceError::Lex(e)) => {
            assert_eq!(e.kind, LexErrorKind::MalformedNumber);
            assert_eq!((e.start, e.end), (18, 22));
        }
        other => panic!("expected a lex error, got {:?}", other.map(|m| m.len())),
    }
}

#[test]
fn block_at_high_address() {
    let m = image(".orig xF000 add r0, r0, -16");
    assert_eq!(m[0xf000] as u16, 0b0001_000_000_1_10000);
}

#[test]
fn block_wraps_round_memory() {
    let m = image(".orig xFFFF\n.stringz \"a\"\nhalt\n.end");
    assert_eq!(m[0xffff], 'a' as i16);
    assert_eq!(m[0], 0);
    assert_eq!(m[1] as u16, 0xf025);
}
